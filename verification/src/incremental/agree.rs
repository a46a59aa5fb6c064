//! That the ways to bring a packer up to date come to the same, and that what they come to is what a packing from
//! scratch gives.

use super::commands::{
    are_tables, awaited_class, core_places, gpu_parts, is_batch, is_core_pool, is_entry, is_table, law_prepared_update,
    GpuClassifyOut, GpuPackBatch,
};
use super::laws::{
    apply_changes, law_delta_patches_buffers, law_edit_is_local, law_edit_uploads_neighbourhood, law_remembers_full_pack,
    lemma_not_freed, shows_set,
};
use super::plan::{all_settled, Places};
use super::snapshot::{complete, has_cells, holds_words, in_slot_order, mirrors, remembered, Buffers};
use super::{
    cells_of, class_of_voxels, content, freed_change, is_delta, is_freed, is_seed, is_step, leavers, leaves,
    lemma_content_len, lemma_entering, near, remembers, same_slot, shows, slot_change, slot_changes, stores, unused,
    Classification, PackerState, RepackDelta, ResidentPacker,
};
use crate::brickmap::Key;
use crate::gpu::halo_at;
use crate::pack::{
    buried, coord_of, entries_wf, haloed, key_ok, lemma_core_cell, lemma_resident_blocks, origin_of, resident_blocks,
    Blocks, ResidentBrick, VoxelsView,
};
use crate::palette::{glows, BlockLook};
use crate::paletted::lemma_first_seen;
use crate::patch::{
    all_lights, any_glows, cell_id, cells_grid, content_lights, entry_contents, entry_keys, has_bricks, is_light_list,
    is_patch, is_uniform_meta, law_light_list_is_capped, law_meta_reads_back, law_patch_reads_back, lemma_dark,
    lemma_distinct_blocks, lemma_streams_of, mirrors_looks, patch_meta, readable, streams_of, EmissiveVoxel,
    GpuBrickPatch,
};
use vstd::prelude::*;

verus! {

/// Whether two packers are in the same state: nothing that a later call gives tells them apart.
pub open spec fn alike(a: &ResidentPacker, b: &ResidentPacker) -> bool {
    &&& a.state() == b.state()
    &&& a.places() == b.places()
    &&& a.rewrites() == b.rewrites()
    &&& ResidentPacker::same_sizes(a, b)
}

/// Two steps from one state that place the bricks alike and show the same contents show the same.
proof fn lemma_steps_agree(
    a: PackerState,
    b: PackerState,
    c: PackerState,
    m: Set<Key>,
    enter: Seq<Key>,
    dirty: spec_fn(Key) -> bool,
    class: spec_fn(Key) -> Classification,
    other: spec_fn(Key) -> Classification,
    cells: spec_fn(Key) -> Option<Seq<u32>>,
    more: spec_fn(Key) -> Option<Seq<u32>>,
    s: u32,
)
    requires
        is_step(a, b, m, enter, dirty, class, cells),
        is_step(a, c, m, enter, dirty, other, more),
        b.resident == c.resident,
        forall|k: Key| #[trigger] dirty(k) ==> class(k) == other(k),
    ensures
        b.metas.dom().contains(s) == c.metas.dom().contains(s),
        b.metas.dom().contains(s) ==> b.metas[s] == c.metas[s],
        b.aabbs.dom().contains(s) == c.aabbs.dom().contains(s),
        b.aabbs.dom().contains(s) ==> b.aabbs[s] == c.aabbs[s],
        (forall|k: Key| #[trigger] dirty(k) ==> cells(k) == more(k)) ==> same_slot(b, c, s),
{
    if is_freed(a, m, s) {
        assert(unused(b, s));
        assert(unused(c, s));
    } else if exists|k: Key| #[trigger] b.resident.dom().contains(k) && b.resident[k].slot == s {
        let k = choose|k: Key| #[trigger] b.resident.dom().contains(k) && b.resident[k].slot == s;
        assert(c.resident.dom().contains(k));
        if dirty(k) {
            assert(shows(b, k, class(k)) && shows(c, k, other(k)));
            assert(remembers(b, k, cells(k)) && remembers(c, k, more(k)));
        } else {
            assert(same_slot(a, b, s));
            assert(same_slot(a, c, s));
        }
    } else {
        assert(same_slot(a, b, s));
        assert(same_slot(a, c, s));
    }
}

/// Updates to one set from the same state come to the same state, whether they pack on threads or not, and whether
/// they return bytes or commands.
pub proof fn law_updates_agree(
    o1: &ResidentPacker,
    n1: &ResidentPacker,
    o2: &ResidentPacker,
    n2: &ResidentPacker,
    entries: Seq<ResidentBrick>,
)
    requires
        alike(o1, o2),
        ResidentPacker::is_update(o1, n1, entries),
        ResidentPacker::is_update(o2, n2, entries),
    ensures
        alike(n1, n2),
{
    let w = resident_blocks(entries);
    let dirty = |k: Key| o1.repacks(entries, k);
    let class = |k: Key| class_of_voxels(content(w, k));
    let cells = |k: Key| cells_of(content(w, k));
    assert((|k: Key| o2.repacks(entries, k)) =~= dirty);
    assert(o1.dirty_set(entries) =~= o2.dirty_set(entries));
    assert(o1.updated(entries) == o2.updated(entries));
    let b = n1.state();
    let c = n2.state();
    assert(b.resident == c.resident);
    assert forall|s: u32| same_slot(b, c, s) by {
        lemma_steps_agree(
            o1.state(),
            b,
            c,
            w.dom(),
            o1.newcomers(entries),
            dirty,
            class,
            class,
            cells,
            cells,
            s,
        );
    }
    lemma_same_everywhere(b, c);
}

/// States with the same bricks whose slots all show and remember the same are one.
proof fn lemma_same_everywhere(b: PackerState, c: PackerState)
    requires
        b.resident == c.resident,
        forall|s: u32| same_slot(b, c, s),
    ensures
        b == c,
{
    assert forall|s: u32| b.metas.dom().contains(s) == c.metas.dom().contains(s) by {
        assert(same_slot(b, c, s));
    }
    assert forall|s: u32| b.metas.dom().contains(s) implies b.metas[s] == c.metas[s] by {
        assert(same_slot(b, c, s));
    }
    assert(b.metas =~= c.metas);
    assert forall|s: u32| b.aabbs.dom().contains(s) == c.aabbs.dom().contains(s) by {
        assert(same_slot(b, c, s));
    }
    assert forall|s: u32| b.aabbs.dom().contains(s) implies b.aabbs[s] == c.aabbs[s] by {
        assert(same_slot(b, c, s));
    }
    assert(b.aabbs =~= c.aabbs);
    assert forall|s: u32| b.cells.dom().contains(s) == c.cells.dom().contains(s) by {
        assert(same_slot(b, c, s));
    }
    assert forall|s: u32| b.cells.dom().contains(s) implies b.cells[s] == c.cells[s] by {
        assert(same_slot(b, c, s));
    }
    assert(b.cells =~= c.cells);
}

/// Updates to one set from the same state return the same: the slots in the same order with the same bytes.
pub proof fn law_deltas_agree(
    o1: &ResidentPacker,
    n1: &ResidentPacker,
    d1: RepackDelta,
    o2: &ResidentPacker,
    n2: &ResidentPacker,
    d2: RepackDelta,
    entries: Seq<ResidentBrick>,
)
    requires
        alike(o1, o2),
        ResidentPacker::is_update(o1, n1, entries),
        is_delta(o1, n1, entries, d1),
        ResidentPacker::is_update(o2, n2, entries),
        is_delta(o2, n2, entries, d2),
    ensures
        d1.changes() == d2.changes(),
        d1.freed@ == d2.freed@,
        d1.topology_changed == d2.topology_changed,
        alike(n1, n2),
{
    law_updates_agree(o1, n1, o2, n2, entries);
    assert(o1.dirty_set(entries) =~= o2.dirty_set(entries));
}

/// Two pools of cores with the same places are one: every word is that of some core.
proof fn lemma_one_pool(c: Seq<u32>, d: Seq<u32>, f: Map<Key, u32>, m: Blocks)
    requires
        is_core_pool(c, f, m),
        is_core_pool(d, f, m),
    ensures
        c == d,
{
    let at = |k: Key| f[k] as int;
    let places = f.dom().map(at);
    let all = vstd::set_lib::set_int_range(0, f.dom().len() as int);
    vstd::set_lib::lemma_map_size(f.dom(), places, at);
    vstd::set_lib::lemma_int_range(0, f.dom().len() as int);
    vstd::set_lib::lemma_subset_equality(places, all);
    assert forall|i: int| 0 <= i < c.len() implies c[i] == d[i] by {
        let v = i % 512;
        assert(all.contains(i / 512));
        let k = choose|k: Key| f.dom().contains(k) && at(k) == i / 512;
        assert(c[512 * f[k] + v] == m[k][v].0 && d[512 * f[k] + v] == m[k][v].0);
        assert(512 * f[k] + v == i);
    }
    assert(c =~= d);
}

/// Tables of the same bricks are the same, with their cores.
proof fn lemma_one_table(c1: Seq<u32>, t1: Seq<u32>, c2: Seq<u32>, t2: Seq<u32>, m: Blocks, ks: Seq<Key>)
    requires
        are_tables(c1, t1, m, ks),
        are_tables(c2, t2, m, ks),
    ensures
        c1 == c2,
        t1 == t2,
{
    let f = core_places(m, ks);
    lemma_one_pool(c1, c2, f, m);
    assert forall|i: int| 0 <= i < t1.len() implies t1[i] == t2[i] by {
        let c = i / 27;
        let n = i % 27;
        assert(is_table(t1, 27 * c, f, m, ks[c]) && is_table(t2, 27 * c, f, m, ks[c]));
        assert(is_entry(t1, 27 * c, f, m, ks[c], n) && is_entry(t2, 27 * c, f, m, ks[c], n));
    }
    assert(t1 =~= t2);
}

/// Updates to one set from the same state hand the same to the GPU, word for word.
pub proof fn law_batches_agree(
    o1: &ResidentPacker,
    n1: &ResidentPacker,
    b1: GpuPackBatch,
    o2: &ResidentPacker,
    n2: &ResidentPacker,
    b2: GpuPackBatch,
    entries: Seq<ResidentBrick>,
)
    requires
        alike(o1, o2),
        ResidentPacker::is_update(o1, n1, entries),
        is_batch(o1, n1, entries, b1),
        ResidentPacker::is_update(o2, n2, entries),
        is_batch(o2, n2, entries, b2),
    ensures
        b1.commands@ == b2.commands@,
        b1.cores@ == b2.cores@,
        b1.neighbour_indices@ == b2.neighbour_indices@,
        b1.cpu_writes@ == b2.cpu_writes@,
        b1.aabb_commands@ == b2.aabb_commands@,
        b1.topology_changed == b2.topology_changed,
{
    law_updates_agree(o1, n1, o2, n2, entries);
    assert(o1.dirty_set(entries) =~= o2.dirty_set(entries));
    let r = gpu_parts(o1.state(), n1.state(), o1.dirty_keys(entries), false);
    lemma_one_table(
        b1.cores@,
        b1.neighbour_indices@,
        b2.cores@,
        b2.neighbour_indices@,
        resident_blocks(entries),
        r.keys,
    );
}

/// The first halves of updates to one set from the same state come to the same state, and wait for the same bricks.
pub proof fn law_prepares_agree(
    o1: &ResidentPacker,
    m1: &ResidentPacker,
    o2: &ResidentPacker,
    m2: &ResidentPacker,
    entries: Seq<ResidentBrick>,
)
    requires
        alike(o1, o2),
        ResidentPacker::is_prepared(o1, m1, entries),
        ResidentPacker::is_prepared(o2, m2, entries),
    ensures
        alike(m1, m2),
        ResidentPacker::same_awaited(m1, m2),
{
    let m = resident_blocks(entries).dom();
    assert(o1.dirty_set(entries) =~= o2.dirty_set(entries));
    let b = m1.state();
    let c = m2.state();
    assert(b.resident == m1.places().resident && c.resident == m2.places().resident);
    assert forall|s: u32| same_slot(b, c, s) by {
        if is_freed(o1.state(), m, s) {
            assert(unused(b, s) && unused(c, s));
        } else {
            assert(same_slot(o1.state(), b, s) && same_slot(o2.state(), c, s));
        }
    }
    lemma_same_everywhere(b, c);
}

/// The second halves of updates from the same state, with the same classifications, come to the same state.
pub proof fn law_finishes_agree(
    m1: &ResidentPacker,
    n1: &ResidentPacker,
    m2: &ResidentPacker,
    n2: &ResidentPacker,
    outs: Seq<GpuClassifyOut>,
)
    requires
        alike(m1, m2),
        ResidentPacker::same_awaited(m1, m2),
        ResidentPacker::is_finished(m1, n1, outs),
        ResidentPacker::is_finished(m2, n2, outs),
    ensures
        alike(n1, n2),
{
    let ks = m1.awaited();
    let dirty = |k: Key| ks.contains(k);
    let class = |k: Key| awaited_class(ks, outs, k);
    let none = |k: Key| None::<Seq<u32>>;
    let b = n1.state();
    let c = n2.state();
    assert(b.resident == n1.places().resident && c.resident == n2.places().resident);
    assert forall|s: u32| same_slot(b, c, s) by {
        lemma_steps_agree(
            m1.state(),
            b,
            c,
            m1.state().resident.dom(),
            Seq::empty(),
            dirty,
            class,
            class,
            none,
            none,
            s,
        );
    }
    lemma_same_everywhere(b, c);
}

/// Bricks of the same classes are placed alike.
proof fn lemma_settled_agree(
    p: Places,
    ks: Seq<Key>,
    class: spec_fn(Key) -> Classification,
    other: spec_fn(Key) -> Classification,
)
    requires
        forall|i: int| 0 <= i < ks.len() ==> class(#[trigger] ks[i]) == other(ks[i]),
    ensures
        all_settled(p, ks, class) == all_settled(p, ks, other),
    decreases ks.len(),
{
    if ks.len() > 0 {
        let front = ks.drop_last();
        assert forall|i: int| 0 <= i < front.len() implies class(#[trigger] front[i]) == other(front[i]) by {
            assert(front[i] == ks[i]);
        }
        lemma_settled_agree(p, front, class, other);
        assert(class(ks[ks.len() - 1]) == other(ks[ks.len() - 1]));
    }
}

/// An update whose bricks are classified on the GPU, with the right classifications, comes to the same slots, blocks,
/// metas and boxes as one that packs them. The cells of the bricks it placed are forgotten.
pub proof fn law_classified_update_agrees(
    o: &ResidentPacker,
    n: &ResidentPacker,
    mid: &ResidentPacker,
    g: &ResidentPacker,
    entries: Seq<ResidentBrick>,
    outs: Seq<GpuClassifyOut>,
)
    requires
        o.wf(),
        ResidentPacker::is_update(o, n, entries),
        ResidentPacker::is_prepared(o, mid, entries),
        ResidentPacker::is_finished(mid, g, outs),
        forall|i: int|
            0 <= i < outs.len() ==> Classification::of_out(#[trigger] outs[i]) == class_of_voxels(
                content(resident_blocks(entries), mid.awaited()[i]),
            ),
    ensures
        g.places() == n.places(),
        g.state().metas == n.state().metas,
        g.state().aabbs == n.state().aabbs,
{
    let w = resident_blocks(entries);
    let ks = mid.awaited();
    let dirty = |k: Key| o.repacks(entries, k);
    let class = |k: Key| class_of_voxels(content(w, k));
    let other = |k: Key| awaited_class(ks, outs, k);
    let cells = |k: Key| cells_of(content(w, k));
    let none = |k: Key| None::<Seq<u32>>;
    law_prepared_update(o, mid, g, entries, outs);
    assert forall|k: Key| #[trigger] dirty(k) implies class(k) == other(k) by {
        assert(ks.contains(k));
        let i = ks.index_of(k);
        assert(Classification::of_out(outs[i]) == class_of_voxels(content(w, ks[i])));
    }
    assert forall|i: int| 0 <= i < ks.len() implies class(#[trigger] ks[i]) == other(ks[i]) by {
        assert(ks.contains(ks[i]));
        assert(dirty(ks[i]));
    }
    lemma_settled_agree(mid.places(), ks, class, other);
    let b = n.state();
    let c = g.state();
    assert forall|s: u32|
        b.metas.dom().contains(s) == c.metas.dom().contains(s) && (b.metas.dom().contains(s) ==> b.metas[s]
            == c.metas[s]) && b.aabbs.dom().contains(s) == c.aabbs.dom().contains(s) && (b.aabbs.dom().contains(s)
            ==> b.aabbs[s] == c.aabbs[s]) by {
        lemma_steps_agree(
            o.state(),
            b,
            c,
            w.dom(),
            o.newcomers(entries),
            dirty,
            class,
            other,
            cells,
            none,
            s,
        );
    }
    assert(b.metas =~= c.metas);
    assert(b.aabbs =~= c.aabbs);
}

/// What is uploaded of bricks goes to their slots.
proof fn lemma_change_slots(a: PackerState, b: PackerState, ks: Seq<Key>, j: int)
    requires
        0 <= j < slot_changes(a, b, ks).len(),
    ensures
        exists|i: int| 0 <= i < ks.len() && b.resident[#[trigger] ks[i]].slot == slot_changes(a, b, ks)[j].slot,
    decreases ks.len(),
{
    let front = ks.drop_last();
    let before = slot_changes(a, b, front);
    if j < before.len() {
        lemma_change_slots(a, b, front, j);
        let i = choose|i: int| 0 <= i < front.len() && b.resident[#[trigger] front[i]].slot == before[j].slot;
        assert(ks[i] == front[i]);
    } else {
        assert(ks[ks.len() - 1] == ks.last());
    }
}

/// A brick whose slot shows something new is among the uploads.
proof fn lemma_change_there(a: PackerState, b: PackerState, ks: Seq<Key>, i: int)
    requires
        0 <= i < ks.len(),
        slot_change(a, b, ks[i]).len() > 0,
    ensures
        exists|j: int|
            0 <= j < slot_changes(a, b, ks).len() && (#[trigger] slot_changes(a, b, ks)[j]).slot
                == b.resident[ks[i]].slot,
    decreases ks.len(),
{
    let front = ks.drop_last();
    let before = slot_changes(a, b, front);
    let all = slot_changes(a, b, ks);
    if i < front.len() {
        assert(front[i] == ks[i]);
        lemma_change_there(a, b, front, i);
        let j = choose|j: int| 0 <= j < before.len() && (#[trigger] before[j]).slot == b.resident[ks[i]].slot;
        assert(all[j] == before[j]);
    } else {
        assert(all[before.len() as int] == slot_change(a, b, ks[i])[0]);
    }
}

/// What a delta tells: the topology changed just where the set of keys did; the slots freed are those of the bricks
/// that left; each of them is among the changed slots once, shown as unused; a brick that stays keeps its slot. This is
/// of an update that has a slot for every brick of the set.
pub proof fn law_delta_tells_what_changed(
    o: &ResidentPacker,
    n: &ResidentPacker,
    entries: Seq<ResidentBrick>,
    delta: RepackDelta,
)
    requires
        o.wf(),
        ResidentPacker::is_update(o, n, entries),
        is_delta(o, n, entries, delta),
        forall|k: Key| #[trigger]
            resident_blocks(entries).dom().contains(k) ==> n.state().resident.dom().contains(k),
    ensures
        n.state().resident.dom() == resident_blocks(entries).dom(),
        delta.topology_changed <==> o.state().resident.dom() != resident_blocks(entries).dom(),
        forall|s: u32| #[trigger]
            delta.freed@.contains(s) <==> exists|k: Key|
                #[trigger] leaves(o.state().resident.dom(), resident_blocks(entries).dom(), k)
                    && o.state().resident[k].slot == s,
        delta.freed@.no_duplicates(),
        forall|i: int|
            0 <= i < delta.freed@.len() ==> delta.changes()[i] == freed_change(#[trigger] delta.freed@[i]) && forall|j: int|
                0 <= j < delta.changes().len() && j != i ==> (#[trigger] delta.changes()[j]).slot != delta.freed@[i],
        forall|k: Key| #[trigger]
            o.state().resident.dom().contains(k) && n.state().resident.dom().contains(k) ==> n.state().resident[k].slot
                == o.state().resident[k].slot,
        (forall|i: int, j: int|
            0 <= i < j < entries.len() ==> (#[trigger] entries[i]).key_spec() != (#[trigger] entries[j]).key_spec())
            ==> n.state().resident.dom().len() == entries.len(),
{
    let a = o.state();
    let b = n.state();
    let m = resident_blocks(entries).dom();
    let enter = o.newcomers(entries);
    let ks = o.dirty_keys(entries);
    let freed = delta.freed@;
    let out = o.leaving(entries);
    let drops = freed.map_values(|s: u32| freed_change(s));
    o.lemma_room();
    lemma_resident_blocks(entries);
    lemma_entering(a.resident.dom(), o.slot_cap() - a.resident.dom().len(), entries);
    assert forall|k: Key| #[trigger] enter.contains(k) implies m.contains(k) && !a.resident.dom().contains(k) by {
        let i = choose|i: int| 0 <= i < entries.len() && (#[trigger] entries[i]).key_spec() == k;
    }
    assert(b.resident.dom() =~= m);
    if freed.len() > 0 {
        assert(out.contains(out[0]));
        assert(leaves(a.resident.dom(), m, out[0]));
    }
    if enter.len() > 0 {
        assert(enter.contains(enter[0]));
    }
    if !delta.topology_changed {
        assert(a.resident.dom() =~= m) by {
            assert forall|k: Key| a.resident.dom().contains(k) <==> m.contains(k) by {
                if a.resident.dom().contains(k) && !m.contains(k) {
                    assert(leavers(a.resident.dom(), m).contains(k));
                    assert(out.contains(k));
                }
                if m.contains(k) && !a.resident.dom().contains(k) {
                    assert(b.resident.dom().contains(k));
                    assert(enter.contains(k));
                }
            }
        }
    }
    assert forall|i: int| 0 <= i < freed.len() implies delta.changes()[i] == freed_change(#[trigger] freed[i]) && forall|
        j: int,
    | 0 <= j < delta.changes().len() && j != i ==> (#[trigger] delta.changes()[j]).slot != freed[i] by {
        assert(drops[i] == freed_change(freed[i]));
        assert forall|j: int| 0 <= j < delta.changes().len() && j != i implies (#[trigger] delta.changes()[j]).slot
            != freed[i] by {
            if j < freed.len() {
                assert(delta.changes()[j] == drops[j]);
                assert(drops[j] == freed_change(freed[j]));
            } else {
                let more = slot_changes(a, b, ks);
                assert(delta.changes()[j] == more[j - drops.len()]);
                lemma_change_slots(a, b, ks, j - drops.len());
                let w = choose|w: int|
                    0 <= w < ks.len() && b.resident[#[trigger] ks[w]].slot == more[j - drops.len()].slot;
                assert(ks.contains(ks[w]));
                assert(o.dirty_set(entries).contains(ks[w]));
                assert(freed.contains(freed[i]));
                assert(is_freed(a, m, freed[i]));
                lemma_not_freed(o, n, entries, ks[w]);
            }
        }
    }
    assert forall|s: u32| #[trigger] freed.contains(s) <==> exists|k: Key|
        #[trigger] leaves(a.resident.dom(), m, k) && a.resident[k].slot == s by {
        assert(freed.contains(s) <==> is_freed(a, m, s));
    }
    if forall|i: int, j: int|
        0 <= i < j < entries.len() ==> (#[trigger] entries[i]).key_spec() != (#[trigger] entries[j]).key_spec() {
        lemma_key_count(entries);
    }
}

/// A list of bricks with distinct keys has as many keys as bricks.
proof fn lemma_key_count(entries: Seq<ResidentBrick>)
    requires
        forall|i: int, j: int|
            0 <= i < j < entries.len() ==> (#[trigger] entries[i]).key_spec() != (#[trigger] entries[j]).key_spec(),
    ensures
        resident_blocks(entries).dom().len() == entries.len(),
    decreases entries.len(),
{
    if entries.len() > 0 {
        let front = entries.drop_last();
        assert forall|i: int, j: int| 0 <= i < j < front.len() implies (#[trigger] front[i]).key_spec() != (
        #[trigger] front[j]).key_spec() by {
            assert(entries[i].key_spec() != entries[j].key_spec());
        }
        lemma_key_count(front);
        lemma_resident_blocks(front);
        let k = entries.last().key_spec();
        if resident_blocks(front).dom().contains(k) {
            let i = choose|i: int| 0 <= i < front.len() && (#[trigger] front[i]).key_spec() == k;
            assert(entries[i].key_spec() != entries[entries.len() - 1].key_spec());
        }
    }
}

/// A brick with other blocks has another content.
proof fn lemma_content_tells(m: Blocks, w: Blocks, k: Key)
    requires
        key_ok(k),
        m[k].len() == 512,
        w[k].len() == 512,
        content(m, k) == content(w, k),
    ensures
        m[k] == w[k],
{
    assert forall|v: int| 0 <= v < 512 implies m[k][v] == w[k][v] by {
        let i = halo_at(v % 8 + 1, (v / 8) % 8 + 1, v / 64 + 1);
        lemma_core_cell(m[k], m, k, v);
        lemma_core_cell(w[k], w, k, v);
        if !buried(m[k], m, k) {
            assert(haloed(m[k], m, k)[i] == haloed(w[k], w, k)[i]);
        }
    }
    assert(m[k] =~= w[k]);
}

/// The rewriting of one brick uploads slots of it and of those that border on it only, at most 27, its own among them;
/// no slot is freed and the topology stays.
pub proof fn law_edit_uploads_the_brick(
    o: &ResidentPacker,
    n: &ResidentPacker,
    entries: Seq<ResidentBrick>,
    delta: RepackDelta,
    m: Blocks,
    k: Key,
)
    requires
        o.wf(),
        ResidentPacker::is_update(o, n, entries),
        is_delta(o, n, entries, delta),
        shows_set(o.state(), m),
        resident_blocks(entries).dom() == m.dom(),
        m.dom().contains(k),
        m[k].len() == 512,
        resident_blocks(entries)[k].len() == 512,
        resident_blocks(entries)[k] != m[k],
        o.rewrites() == seq![k],
    ensures
        delta.freed@.len() == 0,
        !delta.topology_changed,
        delta.changed@.len() <= 27,
        forall|j: int|
            0 <= j < delta.changes().len() ==> exists|q: Key| #[trigger]
                n.state().resident.dom().contains(q) && near(k, q) && (#[trigger] delta.changes()[j]).slot
                    == n.state().resident[q].slot,
        exists|j: int|
            0 <= j < delta.changes().len() && (#[trigger] delta.changes()[j]).slot == n.state().resident[k].slot,
{
    let a = o.state();
    let b = n.state();
    let w = resident_blocks(entries);
    let ks = o.dirty_keys(entries);
    let enter = o.newcomers(entries);
    let out = o.leaving(entries);
    let drops = delta.freed@.map_values(|s: u32| freed_change(s));
    assert(a.resident.dom() =~= w.dom());
    assert forall|j: Key| #[trigger] o.rewrites().contains(j) implies j == k by {}
    law_edit_uploads_neighbourhood(o, n, entries, delta, k);
    o.lemma_room();
    lemma_resident_blocks(entries);
    lemma_entering(a.resident.dom(), o.slot_cap() - a.resident.dom().len(), entries);
    if enter.len() > 0 {
        assert(enter.contains(enter[0]));
        let i = choose|i: int| 0 <= i < entries.len() && (#[trigger] entries[i]).key_spec() == enter[0];
        assert(w.dom().contains(enter[0]));
    }
    assert(drops =~= Seq::empty());
    assert(delta.changes() =~= slot_changes(a, b, ks));
    assert forall|j: int| 0 <= j < delta.changes().len() implies exists|q: Key| #[trigger]
        b.resident.dom().contains(q) && near(k, q) && (#[trigger] delta.changes()[j]).slot == b.resident[q].slot by {
        lemma_change_slots(a, b, ks, j);
        let i = choose|i: int| 0 <= i < ks.len() && b.resident[#[trigger] ks[i]].slot == slot_changes(a, b, ks)[j].slot;
        assert(ks.contains(ks[i]));
        assert(o.dirty_set(entries).contains(ks[i]));
        law_edit_is_local(o, entries, ks[i]);
        let q = choose|q: Key| #[trigger] o.rewrites().contains(q) && near(q, ks[i]);
        assert(b.resident.dom().contains(ks[i]));
    }
    assert(o.rewrites()[0] == k);
    assert(is_seed(a.resident.dom(), w.dom(), enter, o.rewrites(), k) && near(k, k));
    assert(o.repacks(entries, k));
    assert(o.dirty_set(entries).contains(k));
    assert(ks.contains(k));
    let i = choose|i: int| 0 <= i < ks.len() && ks[i] == k;
    o.lemma_key_ok(k);
    assert(b.resident.dom().contains(k));
    assert(a.resident[k].slot == b.resident[k].slot);
    let dirty = |j: Key| o.repacks(entries, j);
    assert(dirty(k));
    assert(shows(b, k, class_of_voxels(content(w, k))));
    assert(remembers(b, k, cells_of(content(w, k))));
    assert(stores(a, k, content(m, k)));
    if content(m, k) == content(w, k) {
        lemma_content_tells(m, w, k);
    }
    o.lemma_offsets(k);
    n.lemma_offsets(k);
    assert(slot_change(a, b, k).len() > 0);
    lemma_change_there(a, b, ks, i);
}

/// An update that packs the bricks leaves a packer that remembers every brick in full one that does.
pub proof fn law_update_keeps_complete(o: &ResidentPacker, n: &ResidentPacker, entries: Seq<ResidentBrick>)
    requires
        o.wf(),
        ResidentPacker::is_update(o, n, entries),
        complete(o.state()),
    ensures
        complete(n.state()),
{
    let a = o.state();
    let b = n.state();
    let w = resident_blocks(entries);
    let dirty = |k: Key| o.repacks(entries, k);
    assert forall|k: Key| #[trigger] b.resident.dom().contains(k) implies stores(b, k, remembered(b, k)) && (
    b.resident[k].dense is Some ==> b.cells.dom().contains(b.resident[k].slot)) by {
        if o.repacks(entries, k) {
            assert(dirty(k));
            assert(shows(b, k, class_of_voxels(content(w, k))));
            assert(remembers(b, k, cells_of(content(w, k))));
            lemma_content_len(w, k);
            match content(w, k) {
                VoxelsView::Uniform(x) => {
                    assert((0x8000_0000 + x.0) % 0x1_0000 == x.0);
                },
                VoxelsView::Dense(c) => {
                    lemma_first_seen(c);
                },
            }
        } else {
            assert(!dirty(k));
            assert(a.resident.dom().contains(k));
            assert(same_slot(a, b, b.resident[k].slot));
            assert(stores(a, k, remembered(a, k)));
        }
    }
}

/// Buffers that were a snapshot, with the changes of an update written into them, show what a snapshot taken after the
/// update shows: the same metas and boxes at every slot, and the same block at every cell of every brick.
pub proof fn law_patched_buffers_are_the_snapshot(
    o: &ResidentPacker,
    n: &ResidentPacker,
    entries: Seq<ResidentBrick>,
    delta: RepackDelta,
    f: Buffers,
    g: Buffers,
)
    requires
        o.wf(),
        complete(o.state()),
        ResidentPacker::is_update(o, n, entries),
        is_delta(o, n, entries, delta),
        !n.grown(),
        mirrors(f, o.state(), o.slot_cap()),
        f.indices.len() == o.index_cap(),
        f.palettes.len() == o.palette_cap(),
        mirrors(g, n.state(), n.slot_cap()),
    ensures
        ({
            let h = apply_changes(f, delta.changes());
            &&& h.metas == g.metas
            &&& h.aabbs == g.aabbs
            &&& h.metas.len() == n.slot_cap()
            &&& forall|k: Key, i: int|
                #![trigger same_cell(h, g, n.state(), k, i)]
                n.state().resident.dom().contains(k) && 0 <= i < 1000 ==> same_cell(h, g, n.state(), k, i)
        }),
{
    let st = n.state();
    let h = apply_changes(f, delta.changes());
    law_delta_patches_buffers(o, n, entries, delta, f);
    law_update_keeps_complete(o, n, entries);
    n.lemma_slots_fit();
    assert forall|i: int| 0 <= i < h.metas.len() implies h.metas[i] == g.metas[i] by {
        let s = i as u32;
        assert(h.metas[s as int] == g.metas[s as int]);
    }
    assert(h.metas =~= g.metas);
    assert forall|i: int| 0 <= i < h.aabbs.len() implies h.aabbs[i] == g.aabbs[i] by {
        let s = i as u32;
        assert(h.aabbs[s as int] == g.aabbs[s as int]);
    }
    assert(h.aabbs =~= g.aabbs);
    assert forall|k: Key, i: int|
        #![trigger same_cell(h, g, st, k, i)]
        st.resident.dom().contains(k) && 0 <= i < 1000 implies same_cell(h, g, st, k, i) by {
        assert(stores(st, k, remembered(st, k)));
        n.law_places_are_disjoint(k, k);
        n.lemma_key_ok(k);
        let slot = st.resident[k].slot;
        assert(h.metas[slot as int] == st.metas[slot]);
        if st.resident[k].dense is Some {
            let d = st.resident[k].dense->0;
            let c = st.cells[slot];
            assert(has_cells(st, k));
            assert(holds_words(h, st, k) && holds_words(g, st, k));
            n.lemma_cells_fit(k);
            n.lemma_offsets(k);
            law_meta_reads_back(
                h.indices,
                h.palettes,
                origin_of(k),
                coord_of(k),
                d.index_offset,
                d.palette_offset,
                k.3,
                c,
                i,
            );
            law_meta_reads_back(
                g.indices,
                g.palettes,
                origin_of(k),
                coord_of(k),
                d.index_offset,
                d.palette_offset,
                k.3,
                c,
                i,
            );
        } else {
            let b = remembered(st, k)->Uniform_0;
            assert((0x8000_0000 + b.0) % 0x1_0000 == b.0);
        }
    }
}

/// Whether cell `i` of brick `k` reads the same block from two buffers.
pub open spec fn same_cell(h: Buffers, g: Buffers, st: PackerState, k: Key, i: int) -> bool {
    let slot = st.resident[k].slot as int;
    &&& readable(h.indices, h.palettes, h.metas[slot], i)
    &&& readable(g.indices, g.palettes, g.metas[slot], i)
    &&& cell_id(h.indices, h.palettes, h.metas[slot], i) == cell_id(g.indices, g.palettes, g.metas[slot], i)
}

/// How many lights the bricks of a list have.
spec fn light_total(ks: Seq<Key>, m: Blocks, looks: Seq<BlockLook>) -> nat
    decreases ks.len(),
{
    if ks.len() == 0 {
        0
    } else {
        light_total(ks.drop_last(), m, looks) + content_lights(ks.last(), content(m, ks.last()), looks).len()
    }
}

/// The lights of a list of bricks are those of each.
proof fn lemma_light_total(ks: Seq<Key>, contents: Seq<VoxelsView>, m: Blocks, looks: Seq<BlockLook>)
    requires
        contents.len() == ks.len(),
        forall|i: int| 0 <= i < ks.len() ==> contents[i] == content(m, #[trigger] ks[i]),
    ensures
        all_lights(ks, contents, looks).len() == light_total(ks, m, looks),
    decreases ks.len(),
{
    if ks.len() > 0 {
        let front = ks.drop_last();
        let rest = contents.drop_last();
        assert forall|i: int| 0 <= i < front.len() implies rest[i] == content(m, #[trigger] front[i]) by {
            assert(front[i] == ks[i]);
        }
        lemma_light_total(front, rest, m, looks);
        assert(contents[ks.len() - 1] == content(m, ks[ks.len() - 1]));
    }
}

/// A brick taken out of a list takes its lights with it.
proof fn lemma_light_total_remove(ks: Seq<Key>, i: int, m: Blocks, looks: Seq<BlockLook>)
    requires
        0 <= i < ks.len(),
    ensures
        light_total(ks, m, looks) == light_total(ks.remove(i), m, looks) + content_lights(
            ks[i],
            content(m, ks[i]),
            looks,
        ).len(),
    decreases ks.len(),
{
    if i == ks.len() - 1 {
        assert(ks.remove(i) =~= ks.drop_last());
    } else {
        lemma_light_total_remove(ks.drop_last(), i, m, looks);
        assert(ks.remove(i).drop_last() =~= ks.drop_last().remove(i));
        assert(ks.remove(i).last() == ks.last());
    }
}

/// The order of the bricks does not change how many lights they have.
proof fn lemma_light_total_order(a: Seq<Key>, b: Seq<Key>, m: Blocks, looks: Seq<BlockLook>)
    requires
        a.no_duplicates(),
        b.no_duplicates(),
        forall|k: Key| #[trigger] a.contains(k) <==> b.contains(k),
    ensures
        light_total(a, m, looks) == light_total(b, m, looks),
        a.len() == b.len(),
    decreases a.len(),
{
    if a.len() == 0 {
        if b.len() > 0 {
            assert(b.contains(b[0]));
            assert(a.contains(b[0]));
        }
    } else {
        let x = a.last();
        assert(a.contains(a[a.len() - 1]));
        assert(b.contains(x));
        let i = choose|i: int| 0 <= i < b.len() && b[i] == x;
        let front = a.drop_last();
        let rest = b.remove(i);
        assert forall|k: Key| #[trigger] front.contains(k) <==> rest.contains(k) by {
            if front.contains(k) {
                let w = choose|w: int| 0 <= w < front.len() && front[w] == k;
                assert(a[w] == k);
                assert(a.contains(k));
                let j = choose|j: int| 0 <= j < b.len() && b[j] == k;
                assert(j != i);
                assert(rest[if j < i { j } else { j - 1 }] == k);
            }
            if rest.contains(k) {
                let w = choose|w: int| 0 <= w < rest.len() && rest[w] == k;
                let j = if w < i { w } else { w + 1 };
                assert(b[j] == k && j != i);
                assert(b.contains(k));
                assert(a.contains(k));
                let v = choose|v: int| 0 <= v < a.len() && a[v] == k;
                assert(front[v] == k);
            }
        }
        assert(rest.no_duplicates()) by {
            assert forall|x: int, y: int| 0 <= x < rest.len() && 0 <= y < rest.len() && x != y implies rest[x]
                != rest[y] by {
                let p = if x < i { x } else { x + 1 };
                let q = if y < i { y } else { y + 1 };
                assert(b[p] != b[q]);
            }
        }
        lemma_light_total_order(front, rest, m, looks);
        lemma_light_total_remove(b, i, m, looks);
    }
}

/// Lights come of blocks that emit, so that a registry without a glowing block gives none.
proof fn lemma_no_lights(ks: Seq<Key>, contents: Seq<VoxelsView>, looks: Seq<BlockLook>)
    requires
        looks.len() > 0,
        !any_glows(looks),
        forall|i: int| 0 <= i < looks.len() ==> ((#[trigger] looks[i]).emits ==> glows(looks[i])),
    ensures
        all_lights(ks, contents, looks).len() == 0,
    decreases ks.len(),
{
    if ks.len() > 0 {
        lemma_no_lights(ks.drop_last(), contents.drop_last(), looks);
        if let VoxelsView::Dense(cells) = contents.last() {
            lemma_dark(cells_grid(cells), looks, coord_of(ks.last()), ks.last().3, 512);
        }
    }
}

/// A patch of what a packer remembers is a packing from scratch of the set that it shows, but for the order of the
/// bricks and where their words lie: as many bricks, the same colours, as many lights, and for every brick the same
/// corner, level and uniform block, and the same block at every cell.
pub proof fn law_snapshot_is_full_pack<P: Fn(EmissiveVoxel) -> u32>(
    p: &ResidentPacker,
    entries: Seq<ResidentBrick>,
    looks: Seq<BlockLook>,
    power_of: P,
    s: GpuBrickPatch,
    ks: Seq<Key>,
    f: GpuBrickPatch,
)
    requires
        complete(p.state()),
        entries_wf(entries),
        1000 * entries.len() < 0x8000_0000,
        forall|i: int, j: int|
            0 <= i < j < entries.len() ==> (#[trigger] entries[i]).key_spec() != (#[trigger] entries[j]).key_spec(),
        shows_set(p.state(), resident_blocks(entries)),
        looks.len() > 0,
        forall|i: int| 0 <= i < looks.len() ==> ((#[trigger] looks[i]).emits ==> glows(looks[i])),
        in_slot_order(p.state(), ks),
        has_bricks(s, ks, ks.map_values(|k: Key| remembered(p.state(), k))),
        is_light_list(
            power_of,
            if any_glows(looks) {
                all_lights(ks, ks.map_values(|k: Key| remembered(p.state(), k)), looks)
            } else {
                Seq::empty()
            },
            s.lights@,
        ),
        mirrors_looks(s.palette@, looks),
        is_patch(f, entry_keys(entries), entry_contents(entries), looks, power_of),
    ensures
        s.aabbs@.len() == f.aabbs@.len(),
        s.metas@.len() == f.metas@.len(),
        s.palette@.len() == f.palette@.len(),
        forall|i: int|
            0 <= i < s.palette@.len() ==> (#[trigger] s.palette@[i]).rgba@ == f.palette@[i].rgba@
                && s.palette@[i].emissive@ == f.palette@[i].emissive@,
        s.lights@.len() == f.lights@.len(),
        ks.no_duplicates(),
        forall|i: int|
            0 <= i < entries.len() ==> #[trigger] has_brick(s, ks, entries[i].key_spec(), f, i),
{
    let st = p.state();
    let m = resident_blocks(entries);
    let keys = entry_keys(entries);
    let full = entry_contents(entries);
    let mine = ks.map_values(|k: Key| remembered(st, k));
    lemma_resident_blocks(entries);
    assert(ks.no_duplicates()) by {
        assert forall|i: int, j: int| 0 <= i < ks.len() && 0 <= j < ks.len() && i != j implies ks[i] != ks[j] by {
            if i < j {
                assert(st.resident[ks[i]].slot < st.resident[ks[j]].slot);
            } else {
                assert(st.resident[ks[j]].slot < st.resident[ks[i]].slot);
            }
        }
    }
    assert(keys.no_duplicates()) by {
        assert forall|i: int, j: int| 0 <= i < keys.len() && 0 <= j < keys.len() && i != j implies keys[i] != keys[j] by {
            if i < j {
                assert(entries[i].key_spec() != entries[j].key_spec());
            } else {
                assert(entries[j].key_spec() != entries[i].key_spec());
            }
        }
    }
    assert forall|k: Key| #[trigger] keys.contains(k) <==> ks.contains(k) by {
        if keys.contains(k) {
            let i = choose|i: int| 0 <= i < keys.len() && keys[i] == k;
            assert(entries[i].key_spec() == k);
            assert(m.dom().contains(k));
            assert(st.resident.dom().contains(k));
        }
        if ks.contains(k) {
            assert(st.resident.dom().contains(k));
            assert(m.dom().contains(k));
            let i = choose|i: int| 0 <= i < entries.len() && (#[trigger] entries[i]).key_spec() == k;
            assert(keys[i] == k);
        }
    }
    assert forall|i: int| 0 <= i < ks.len() implies mine[i] == content(m, #[trigger] ks[i]) by {
        assert(ks.contains(ks[i]));
        assert(st.resident.dom().contains(ks[i]));
        law_remembers_full_pack(st, m, ks[i]);
    }
    assert forall|i: int| 0 <= i < keys.len() implies full[i] == content(m, #[trigger] keys[i]) by {
        lemma_distinct_blocks(entries, i);
    }
    lemma_light_total_order(keys, ks, m, looks);
    lemma_light_total(ks, mine, m, looks);
    lemma_light_total(keys, full, m, looks);
    if any_glows(looks) {
        law_light_list_is_capped(power_of, all_lights(ks, mine, looks), s.lights@);
    } else {
        lemma_no_lights(keys, full, looks);
        law_light_list_is_capped(power_of, Seq::empty(), s.lights@);
    }
    law_light_list_is_capped(power_of, all_lights(keys, full, looks), f.lights@);
    assert forall|i: int| 0 <= i < entries.len() implies #[trigger] has_brick(s, ks, entries[i].key_spec(), f, i) by {
        let k = entries[i].key_spec();
        assert(keys[i] == k);
        assert(keys.contains(k));
        assert(ks.contains(k));
        let a = choose|a: int| 0 <= a < ks.len() && ks[a] == k;
        assert(entries[i].wf());
        assert(mine[a] == content(m, ks[a]));
        assert(full[i] == content(m, keys[i]));
        lemma_content_len(m, k);
        assert forall|j: int| 0 <= j < mine.len() implies (#[trigger] mine[j] matches VoxelsView::Dense(c) ==> c.len()
            == 1000) by {
            assert(mine[j] == content(m, ks[j]));
            lemma_content_len(m, ks[j]);
        }
        assert forall|j: int| 0 <= j < full.len() implies (#[trigger] full[j] matches VoxelsView::Dense(c) ==> c.len()
            == 1000) by {
            assert(full[j] == content(m, keys[j]));
            lemma_content_len(m, keys[j]);
        }
        lemma_streams_of(mine);
        lemma_streams_of(full);
        assert(s.metas@[a] == patch_meta(streams_of(mine), ks[a], mine[a]));
        assert(f.metas@[i] == patch_meta(streams_of(full), keys[i], full[i]));
        assert forall|c: int| 0 <= c < 1000 implies #[trigger] cell_id(
            s.voxels@,
            s.brick_palettes@,
            s.metas@[a],
            c,
        ) == cell_id(f.voxels@, f.brick_palettes@, f.metas@[i], c) by {
            law_patch_reads_back(s, ks, mine, a, c);
            law_patch_reads_back(f, keys, full, i, c);
        }
        assert(same_brick(s, a, f, i));
    }
}

/// Whether a patch of the bricks `ks` holds, as brick `k`, what is brick `b` of another patch.
pub open spec fn has_brick(s: GpuBrickPatch, ks: Seq<Key>, k: Key, f: GpuBrickPatch, b: int) -> bool {
    exists|a: int| 0 <= a < ks.len() && ks[a] == k && #[trigger] same_brick(s, a, f, b)
}

/// Whether brick `a` of one patch is brick `b` of another, but for where its words lie.
pub open spec fn same_brick(s: GpuBrickPatch, a: int, f: GpuBrickPatch, b: int) -> bool {
    let x = s.metas@[a];
    let y = f.metas@[b];
    &&& s.aabbs@[a] == f.aabbs@[b]
    &&& x.voxel_origin == y.voxel_origin
    &&& x.world_min == y.world_min
    &&& x.lod_and_bits == y.lod_and_bits
    &&& is_uniform_meta(x) == is_uniform_meta(y)
    &&& is_uniform_meta(x) ==> x == y
    &&& forall|i: int|
        0 <= i < 1000 ==> #[trigger] cell_id(s.voxels@, s.brick_palettes@, x, i) == cell_id(
            f.voxels@,
            f.brick_palettes@,
            y,
            i,
        )
}

} // verus!
