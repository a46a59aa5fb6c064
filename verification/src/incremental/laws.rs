//! What holds of a packer over updates.

use super::commands::{awaited_class, law_prepared_update, GpuClassifyOut};
use super::plan::{all_left, law_ascending_exists, law_words_suffice, lemma_used_stays, lists, released};
use super::snapshot::{
    complete, has_cells, holds_words, lemma_write_apart, lemma_write_there, mirrors, remembered, write_at, Buffers,
};
use super::{
    cells_differ, cells_of, class_of_voxels, content, entering, freed_change, is_delta, is_freed, is_seed, is_step,
    leavers, leaves, lemma_ascending_distinct, lemma_content_len, lemma_entering, lemma_resident_count, near, remembers, same_slot, shows,
    slot_change, slot_changes, stores, unused, ChangeView, Classification, PackerState, RepackDelta, ResidentPacker,
};
use crate::brickmap::Key;
use crate::gpu::{zero_meta, GpuBrickAabb, GpuBrickMeta};
use crate::pack::{
    border_block, buried, halo_block, haloed, key_ok, lemma_resident_blocks, resident_blocks, shifted, Blocks,
    ResidentBrick, VoxelsView,
};
use crate::paletted::{index_stream, lemma_first_seen, lemma_index_stream, palette_words};
use crate::patch::{cell_id, law_meta_reads_back, readable};
use crate::sort::keys_ascend;
use vstd::prelude::*;

verus! {

/// Whether the slots of a packer show the bricks `m`, each packed against all of them: what a packing
/// from scratch would show.
pub open spec fn shows_set(st: PackerState, m: Blocks) -> bool {
    &&& forall|k: Key| #[trigger] st.resident.dom().contains(k) <==> m.dom().contains(k)
    &&& forall|k: Key| #[trigger] st.resident.dom().contains(k) ==> stores(st, k, content(m, k))
}

/// Whether two sets of bricks agree on brick `j`.
pub open spec fn agree_at(a: Blocks, b: Blocks, j: Key) -> bool {
    &&& a.dom().contains(j) == b.dom().contains(j)
    &&& (a.dom().contains(j) ==> a[j] == b[j])
}

/// The content of a brick depends on the brick and on those that border on it only.
pub proof fn law_content_is_local(a: Blocks, b: Blocks, k: Key)
    requires
        key_ok(k),
        a.dom().contains(k),
        forall|j: Key| #[trigger] near(j, k) ==> agree_at(a, b, j),
    ensures
        content(a, k) == content(b, k),
{
    assert(near(k, k));
    assert(a[k] == b[k]);
    assert forall|i: int| 0 <= i < 1000 implies #[trigger] halo_block(a[k], a, k, i) == halo_block(
        b[k],
        b,
        k,
        i,
    ) by {
        let cx = i % 10 - 1;
        let cy = (i / 10) % 10 - 1;
        let cz = i / 100 - 1;
        let n = shifted(k, cx / 8, cy / 8, cz / 8);
        assert(near(n, k));
        assert(border_block(a, k, cx, cy, cz) == border_block(b, k, cx, cy, cz));
    }
    assert(haloed(a[k], a, k) =~= haloed(b[k], b, k));
    assert(buried(a[k], a, k) == buried(b[k], b, k)) by {
        if buried(a[k], a, k) {
            assert forall|i: int| 0 <= i < 1000 implies #[trigger] halo_block(b[k], b, k, i) == b[k][0] by {
                assert(halo_block(a[k], a, k, i) == a[k][0]);
            }
        }
        if buried(b[k], b, k) {
            assert forall|i: int| 0 <= i < 1000 implies #[trigger] halo_block(a[k], a, k, i) == a[k][0] by {
                assert(halo_block(b[k], b, k, i) == b[k][0]);
            }
        }
    }
}

/// A step that places every dirty brick as its content asks keeps the slots showing what a packing from
/// scratch would show.
proof fn lemma_step_is_full(
    o: &ResidentPacker,
    b: PackerState,
    entries: Seq<ResidentBrick>,
    m: Blocks,
    class: spec_fn(Key) -> Classification,
    cells: spec_fn(Key) -> Option<Seq<u32>>,
)
    requires
        o.wf(),
        is_step(
            o.state(),
            b,
            resident_blocks(entries).dom(),
            o.newcomers(entries),
            |k: Key| o.repacks(entries, k),
            class,
            cells,
        ),
        forall|k: Key| #[trigger]
            o.repacks(entries, k) ==> class(k) == class_of_voxels(content(resident_blocks(entries), k)) && (
            cells(k) is None || cells(k) == cells_of(content(resident_blocks(entries), k))),
        shows_set(o.state(), m),
        forall|k: Key|
            #![trigger m.dom().contains(k)]
            m.dom().contains(k) && resident_blocks(entries).dom().contains(k) && m[k] != resident_blocks(
                entries,
            )[k] ==> o.rewrites().contains(k),
        forall|k: Key| #[trigger]
            resident_blocks(entries).dom().contains(k) ==> b.resident.dom().contains(k),
    ensures
        shows_set(b, resident_blocks(entries)),
{
    let a = o.state();
    let w = resident_blocks(entries);
    let enter = o.newcomers(entries);
    let dirty = |k: Key| o.repacks(entries, k);
    lemma_resident_blocks(entries);
    o.lemma_room();
    lemma_entering(a.resident.dom(), o.slot_cap() - a.resident.dom().len(), entries);
    assert forall|k: Key| #[trigger] b.resident.dom().contains(k) implies w.dom().contains(k) && stores(
        b,
        k,
        content(w, k),
    ) by {
        lemma_content_len(w, k);
        if o.repacks(entries, k) {
            assert(dirty(k));
            assert(shows(b, k, class(k)));
            assert(remembers(b, k, cells(k)));
            if let VoxelsView::Dense(c) = content(w, k) {
                lemma_first_seen(c);
            }
        } else {
            assert(!dirty(k));
            assert(a.resident.dom().contains(k));
            assert(w.dom().contains(k)) by {
                if enter.contains(k) {
                    assert(is_seed(a.resident.dom(), w.dom(), enter, o.rewrites(), k) && near(k, k));
                }
            }
            o.lemma_key_ok(k);
            assert forall|j: Key| #[trigger] near(j, k) implies agree_at(m, w, j) by {
                if !agree_at(m, w, j) {
                    if w.dom().contains(j) {
                        if m.dom().contains(j) {
                            assert(o.rewrites().contains(j));
                        } else {
                            assert(b.resident.dom().contains(j));
                            assert(enter.contains(j));
                        }
                        assert(is_seed(a.resident.dom(), w.dom(), enter, o.rewrites(), j));
                        assert(o.repacks(entries, k));
                    } else {
                        assert(leaves(a.resident.dom(), w.dom(), j));
                        assert(is_seed(a.resident.dom(), w.dom(), enter, o.rewrites(), k));
                        assert(near(k, k));
                        assert(o.repacks(entries, k));
                    }
                }
            }
            law_content_is_local(m, w, k);
            assert(stores(a, k, content(m, k)));
            assert(same_slot(a, b, b.resident[k].slot));
        }
    }
}

/// An update keeps a packer's slots showing what a packing from scratch would show: where they showed
/// the bricks `m`, every brick that changed since was marked, and all bricks of `entries` got a slot,
/// they show the bricks of `entries`.
pub proof fn law_update_is_full_pack(
    o: &ResidentPacker,
    n: &ResidentPacker,
    entries: Seq<ResidentBrick>,
    m: Blocks,
)
    requires
        o.wf(),
        ResidentPacker::is_update(o, n, entries),
        shows_set(o.state(), m),
        forall|k: Key|
            #![trigger m.dom().contains(k)]
            m.dom().contains(k) && resident_blocks(entries).dom().contains(k) && m[k] != resident_blocks(
                entries,
            )[k] ==> o.rewrites().contains(k),
        forall|k: Key| #[trigger]
            resident_blocks(entries).dom().contains(k) ==> n.state().resident.dom().contains(k),
    ensures
        shows_set(n.state(), resident_blocks(entries)),
{
    let w = resident_blocks(entries);
    lemma_step_is_full(
        o,
        n.state(),
        entries,
        m,
        |k: Key| class_of_voxels(content(w, k)),
        |k: Key| cells_of(content(w, k)),
    );
}

/// A prepared update that is finished with the right classifications of its bricks keeps the slots
/// showing what a packing from scratch would show, as an update does.
pub proof fn law_classified_update_is_full_pack(
    o: &ResidentPacker,
    mid: &ResidentPacker,
    n: &ResidentPacker,
    entries: Seq<ResidentBrick>,
    outs: Seq<GpuClassifyOut>,
    m: Blocks,
)
    requires
        o.wf(),
        ResidentPacker::is_prepared(o, mid, entries),
        ResidentPacker::is_finished(mid, n, outs),
        forall|i: int|
            0 <= i < outs.len() ==> Classification::of_out(#[trigger] outs[i]) == class_of_voxels(
                content(resident_blocks(entries), mid.awaited()[i]),
            ),
        shows_set(o.state(), m),
        forall|k: Key|
            #![trigger m.dom().contains(k)]
            m.dom().contains(k) && resident_blocks(entries).dom().contains(k) && m[k] != resident_blocks(
                entries,
            )[k] ==> o.rewrites().contains(k),
        forall|k: Key| #[trigger]
            resident_blocks(entries).dom().contains(k) ==> n.state().resident.dom().contains(k),
    ensures
        shows_set(n.state(), resident_blocks(entries)),
{
    let w = resident_blocks(entries);
    let class = |k: Key| awaited_class(mid.awaited(), outs, k);
    let cells = |k: Key| None::<Seq<u32>>;
    law_prepared_update(o, mid, n, entries, outs);
    assert forall|k: Key| #[trigger] o.repacks(entries, k) implies class(k) == class_of_voxels(
        content(w, k),
    ) by {
        assert(mid.awaited().contains(k));
        let i = mid.awaited().index_of(k);
        assert(Classification::of_out(outs[i]) == class_of_voxels(content(w, mid.awaited()[i])));
    }
    lemma_step_is_full(o, n.state(), entries, m, class, cells);
}

/// What a packer that shows a set of bricks remembers of them are the contents that a packing from
/// scratch gives.
pub proof fn law_remembers_full_pack(st: PackerState, m: Blocks, k: Key)
    requires
        shows_set(st, m),
        st.resident.dom().contains(k),
        st.resident[k].dense is Some ==> st.cells.dom().contains(st.resident[k].slot),
    ensures
        remembered(st, k) == content(m, k),
{
    assert(stores(st, k, content(m, k)));
    match content(m, k) {
        VoxelsView::Uniform(b) => {
            assert((0x8000_0000 + b.0) % 0x1_0000 == b.0);
        },
        VoxelsView::Dense(_) => {},
    }
}

/// A packer that shows a set of bricks and forgot no cells remembers it in full.
pub proof fn law_shown_is_complete(st: PackerState, m: Blocks)
    requires
        shows_set(st, m),
        forall|k: Key| #[trigger]
            st.resident.dom().contains(k) && st.resident[k].dense is Some ==> st.cells.dom().contains(
                st.resident[k].slot,
            ),
    ensures
        complete(st),
{
    assert forall|k: Key| #[trigger] st.resident.dom().contains(k) implies stores(
        st,
        k,
        remembered(st, k),
    ) by {
        law_remembers_full_pack(st, m, k);
    }
}

/// Where a set has room for every new brick, an update gives every brick of it a slot.
pub proof fn law_room_for_all(o: &ResidentPacker, entries: Seq<ResidentBrick>)
    requires
        o.wf(),
        resident_blocks(entries).dom().difference(o.state().resident.dom()).len()
            <= o.slot_cap() - o.state().resident.dom().len(),
    ensures
        forall|k: Key| #[trigger]
            resident_blocks(entries).dom().contains(k) ==> o.state().resident.dom().contains(k)
                || o.newcomers(entries).contains(k),
{
    let dom = o.state().resident.dom();
    let room = o.slot_cap() - dom.len();
    let all = resident_blocks(entries).dom();
    o.lemma_room();
    lemma_resident_blocks(entries);
    assert forall|k: Key| #[trigger] all.contains(k) implies dom.contains(k) || o.newcomers(
        entries,
    ).contains(k) by {
        if !dom.contains(k) {
            let i = choose|i: int| 0 <= i < entries.len() && (#[trigger] entries[i]).key_spec() == k;
            lemma_fresh_enters(dom, room, entries, entries.len() as int, i);
            assert(entries.take(entries.len() as int) =~= entries);
        }
    }
}

/// A brick that is not resident enters where there is room for all that are not.
proof fn lemma_fresh_enters(dom: Set<Key>, room: int, entries: Seq<ResidentBrick>, n: int, i: int)
    requires
        0 <= i < n <= entries.len(),
        0 <= room,
        !dom.contains(entries[i].key_spec()),
        resident_blocks(entries).dom().difference(dom).len() <= room,
    ensures
        entering(dom, room, entries.take(n)).contains(entries[i].key_spec()),
    decreases n,
{
    let t = entries.take(n);
    let k = entries[i].key_spec();
    assert(t.drop_last() =~= entries.take(n - 1));
    let before = entering(dom, room, entries.take(n - 1));
    let now = entering(dom, room, t);
    if i < n - 1 {
        lemma_fresh_enters(dom, room, entries, n - 1, i);
        let w = choose|w: int| 0 <= w < before.len() && before[w] == k;
        assert(now[w] == k);
    } else if !before.contains(k) {
        assert(before.len() < room) by {
            lemma_entering(dom, room, entries.take(n - 1));
            lemma_resident_blocks(entries);
            let fresh = resident_blocks(entries).dom().difference(dom);
            let more = before.push(k);
            assert(more.no_duplicates()) by {
                assert forall|x: int, y: int| 0 <= x < more.len() && 0 <= y < more.len() && x != y implies more[x]
                    != more[y] by {
                    if x < before.len() {
                        assert(before.contains(before[x]));
                    }
                    if y < before.len() {
                        assert(before.contains(before[y]));
                    }
                }
            }
            more.unique_seq_to_set();
            assert(more.to_set().subset_of(fresh)) by {
                assert forall|x: Key| #[trigger] more.to_set().contains(x) implies fresh.contains(x) by {
                    let w = choose|w: int| 0 <= w < more.len() && more[w] == x;
                    if w < before.len() {
                        assert(before.contains(x));
                        let j = choose|j: int|
                            0 <= j < entries.take(n - 1).len() && (#[trigger] entries.take(
                                n - 1,
                            )[j]).key_spec() == x;
                        assert(entries[j].key_spec() == x);
                    } else {
                        assert(entries[i].key_spec() == x);
                    }
                }
            }
            vstd::set_lib::lemma_len_subset(more.to_set(), fresh);
        }
        assert(now == before.push(k));
        assert(now[before.len() as int] == k);
    }
}

/// The bricks that an update packs anew can be listed, and are not more than those of the set; those that leave can be
/// listed too.
pub proof fn law_changes_are_listed(o: &ResidentPacker, entries: Seq<ResidentBrick>)
    requires
        o.wf(),
    ensures
        lists(o.dirty_keys(entries), o.dirty_set(entries)),
        o.dirty_keys(entries).len() <= entries.len(),
        lists(
            o.leaving(entries),
            leavers(o.state().resident.dom(), resident_blocks(entries).dom()),
        ),
{
    let m = resident_blocks(entries).dom();
    let out = leavers(o.state().resident.dom(), m);
    lemma_resident_blocks(entries);
    o.lemma_room();
    assert(o.dirty_set(entries).subset_of(m));
    assert(out.subset_of(o.state().resident.dom()));
    vstd::set_lib::lemma_len_subset(o.dirty_set(entries), m);
    vstd::set_lib::lemma_len_subset(out, o.state().resident.dom());
    law_ascending_exists(o.dirty_set(entries));
    law_ascending_exists(out);
    lemma_resident_count(entries);
    let ks = o.dirty_keys(entries);
    ks.unique_seq_to_set();
    assert(ks.to_set() =~= o.dirty_set(entries));
}

/// An update takes words for the bricks that it packs anew only: at most 500 for the index stream and 1024 for the
/// palette of each, and where none of them has more than 256 distinct blocks, at most 250 and 256.
pub proof fn law_words_of_update(o: &ResidentPacker, entries: Seq<ResidentBrick>, most: int)
    requires
        o.wf(),
        most == 256 || most == 1000,
        most == 256 ==> forall|k: Key| #[trigger]
            o.repacks(entries, k) ==> (class_of_voxels(content(resident_blocks(entries), k))
                matches Classification::Dense { palette_k } ==> palette_k <= 256),
    ensures
        o.updated(entries).index.used <= o.index_used() + (if most == 256 {
            250int
        } else {
            500
        }) * o.dirty_keys(entries).len(),
        o.updated(entries).palette.used <= o.palette_used() + (if most == 256 {
            256int
        } else {
            1024
        }) * o.dirty_keys(entries).len(),
{
    let ks = o.dirty_keys(entries);
    let w = resident_blocks(entries);
    let class = |k: Key| class_of_voxels(content(w, k));
    law_changes_are_listed(o, entries);
    lemma_dirty(o, entries, ks);
    assert forall|i: int| 0 <= i < ks.len() implies (class(#[trigger] ks[i]) matches Classification::Dense {
        palette_k,
    } ==> palette_k <= most) by {
        assert(ks.contains(ks[i]));
        assert(o.repacks(entries, ks[i]));
        lemma_content_len(w, ks[i]);
    }
    law_words_suffice(o.readied(entries), ks, class, most);
    let p = released(o.places());
    lemma_used_stays(p, o.leaving(entries), Seq::empty());
    lemma_used_stays(all_left(p, o.leaving(entries)), Seq::empty(), entries);
}

/// The offsets that an update hands out fit their fields where there is room for the bricks that it packs anew.
pub proof fn law_has_words(o: &ResidentPacker, entries: Seq<ResidentBrick>)
    requires
        o.wf(),
        o.index_used() + 500 * o.dirty_keys(entries).len() < 0x8000_0000,
        o.palette_used() + 1024 * o.dirty_keys(entries).len() < 0x8000_0000,
    ensures
        o.has_words(entries),
{
    law_words_of_update(o, entries, 1000);
}

/// A load within the reserve asks for no larger buffers: where the words in use leave 256 for every brick that is
/// packed anew of what was reserved, and none of these has more than 256 distinct blocks, an update does not outgrow
/// buffers that are as large as what was reserved.
pub proof fn law_no_growth_within_reserve(
    o: &ResidentPacker,
    n: &ResidentPacker,
    entries: Seq<ResidentBrick>,
)
    requires
        o.wf(),
        ResidentPacker::is_update(o, n, entries),
        !o.grown(),
        o.index_floor() <= o.index_cap(),
        o.palette_floor() <= o.palette_cap(),
        forall|k: Key| #[trigger]
            o.repacks(entries, k) ==> (class_of_voxels(content(resident_blocks(entries), k))
                matches Classification::Dense { palette_k } ==> palette_k <= 256),
        o.index_used() + 256 * o.dirty_keys(entries).len() <= o.index_floor(),
        o.palette_used() + 256 * o.dirty_keys(entries).len() <= o.palette_floor(),
    ensures
        !n.grown(),
        n.index_floor() <= n.index_cap(),
        n.palette_floor() <= n.palette_cap(),
{
    law_words_of_update(o, entries, 256);
    let n = o.dirty_keys(entries).len() as int;
    assert(250 * n <= 256 * n);
}

/// An update in which no brick enters or leaves packs anew only the rewritten bricks and those that
/// border on one.
pub proof fn law_edit_is_local(o: &ResidentPacker, entries: Seq<ResidentBrick>, k: Key)
    requires
        forall|j: Key| #[trigger]
            resident_blocks(entries).dom().contains(j) <==> o.state().resident.dom().contains(j),
        o.wf(),
        o.repacks(entries, k),
    ensures
        exists|j: Key| #[trigger] o.rewrites().contains(j) && near(j, k),
{
    let dom = o.state().resident.dom();
    let m = resident_blocks(entries).dom();
    let enter = o.newcomers(entries);
    o.lemma_room();
    lemma_resident_blocks(entries);
    lemma_entering(dom, o.slot_cap() - dom.len(), entries);
    let s = choose|s: Key| #[trigger] is_seed(dom, m, enter, o.rewrites(), s) && near(s, k);
    if enter.contains(s) {
        let i = choose|i: int| 0 <= i < entries.len() && (#[trigger] entries[i]).key_spec() == s;
        assert(m.contains(s));
    }
    assert(forall|d: Key| !leaves(dom, m, d));
    assert(o.rewrites().contains(s));
}

/// The neighbourhood of a brick, itself among it, is 27 bricks.
proof fn lemma_near_count(k: Key, ks: Seq<Key>)
    requires
        ks.no_duplicates(),
        forall|i: int| 0 <= i < ks.len() ==> near(k, #[trigger] ks[i]),
    ensures
        ks.len() <= 27,
{
    let t = ks.map_values(
        |j: Key| (j.2 - k.2 + 1) * 9 + (j.1 - k.1 + 1) * 3 + (j.0 - k.0 + 1),
    );
    assert(t.no_duplicates()) by {
        assert forall|a: int, b: int| 0 <= a < t.len() && 0 <= b < t.len() && a != b implies t[a] != t[b] by {
            assert(near(k, ks[a]) && near(k, ks[b]));
            assert(ks[a] != ks[b]);
        }
    }
    t.unique_seq_to_set();
    let range = vstd::set_lib::set_int_range(0, 27);
    vstd::set_lib::lemma_int_range(0, 27);
    assert(t.to_set().subset_of(range)) by {
        assert forall|x: int| #[trigger] t.to_set().contains(x) implies range.contains(x) by {
            let w = choose|w: int| 0 <= w < t.len() && t[w] == x;
            assert(near(k, ks[w]));
        }
    }
    vstd::set_lib::lemma_len_subset(t.to_set(), range);
}

proof fn lemma_changes_count(a: PackerState, b: PackerState, ks: Seq<Key>)
    ensures
        slot_changes(a, b, ks).len() <= ks.len(),
    decreases ks.len(),
{
    if ks.len() > 0 {
        lemma_changes_count(a, b, ks.drop_last());
    }
}

/// The rewriting of one brick uploads no more than 27 slots.
pub proof fn law_edit_uploads_neighbourhood(
    o: &ResidentPacker,
    n: &ResidentPacker,
    entries: Seq<ResidentBrick>,
    delta: RepackDelta,
    k: Key,
)
    requires
        o.wf(),
        is_delta(o, n, entries, delta),
        forall|j: Key| #[trigger]
            resident_blocks(entries).dom().contains(j) <==> o.state().resident.dom().contains(j),
        forall|j: Key| #[trigger] o.rewrites().contains(j) ==> j == k,
    ensures
        delta.freed@.len() == 0,
        delta.changed@.len() <= 27,
{
    let a = o.state();
    let m = resident_blocks(entries).dom();
    let drops = delta.freed@.map_values(|s: u32| freed_change(s));
    let ks = o.dirty_keys(entries);
    lemma_dirty(o, entries, ks);
    if delta.freed@.len() > 0 {
        assert(delta.freed@.contains(delta.freed@[0]));
        let d = choose|d: Key|
            #[trigger] leaves(a.resident.dom(), m, d) && a.resident[d].slot == delta.freed@[0];
        assert(false);
    }
    lemma_ascending_distinct(ks);
    assert forall|i: int| 0 <= i < ks.len() implies near(k, #[trigger] ks[i]) by {
        assert(ks.contains(ks[i]));
        law_edit_is_local(o, entries, ks[i]);
        let j = choose|j: Key| #[trigger] o.rewrites().contains(j) && near(j, ks[i]);
    }
    lemma_near_count(k, ks);
    lemma_changes_count(a, n.state(), ks);
    assert(delta.changes().len() == delta.changed@.len());
}

/// The buffers with one slot's new bytes written.
pub open spec fn apply_change(b: Buffers, c: ChangeView) -> Buffers {
    Buffers {
        metas: b.metas.update(c.slot as int, c.meta),
        aabbs: b.aabbs.update(c.slot as int, c.aabb),
        indices: match c.index {
            Some(w) => write_at(b.indices, c.index_word_offset as int, w),
            None => b.indices,
        },
        palettes: match c.palette {
            Some(w) => write_at(b.palettes, c.palette_word_offset as int, w),
            None => b.palettes,
        },
    }
}

/// The buffers with the new bytes of a list of slots written, one after the other.
pub open spec fn apply_changes(b: Buffers, cs: Seq<ChangeView>) -> Buffers
    decreases cs.len(),
{
    if cs.len() == 0 {
        b
    } else {
        apply_change(apply_changes(b, cs.drop_last()), cs.last())
    }
}

proof fn lemma_apply_append(b: Buffers, a: Seq<ChangeView>, c: Seq<ChangeView>)
    ensures
        apply_changes(b, a + c) == apply_changes(apply_changes(b, a), c),
    decreases c.len(),
{
    if c.len() == 0 {
        assert(a + c =~= a);
    } else {
        assert((a + c).drop_last() =~= a + c.drop_last());
        lemma_apply_append(b, a, c.drop_last());
    }
}

/// The meta that a buffer shows at slot `s` once the uploads of the first `n` bricks of `ks` were
/// applied.
spec fn slot_done(a: PackerState, b: PackerState, m: Set<Key>, ks: Seq<Key>, n: int, s: u32) -> PackerState {
    if exists|j: int| 0 <= j < n && b.resident[#[trigger] ks[j]].slot == s {
        b
    } else if is_freed(a, m, s) {
        b
    } else {
        a
    }
}

spec fn meta_at(st: PackerState, s: u32) -> GpuBrickMeta {
    if st.metas.dom().contains(s) {
        st.metas[s]
    } else {
        zero_meta()
    }
}

spec fn aabb_at(st: PackerState, s: u32) -> GpuBrickAabb {
    if st.aabbs.dom().contains(s) {
        st.aabbs[s]
    } else {
        GpuBrickAabb::Degenerate
    }
}

/// Buffers to which the frees and the uploads of the first `n` bricks of `ks` were applied.
spec fn half_applied(
    f: Buffers,
    a: PackerState,
    b: PackerState,
    m: Set<Key>,
    ks: Seq<Key>,
    n: int,
    capacity: int,
) -> bool {
    &&& f.metas.len() == capacity
    &&& f.aabbs.len() == capacity
    &&& forall|s: u32|
        s < capacity ==> (#[trigger] f.metas[s as int]) == meta_at(slot_done(a, b, m, ks, n, s), s)
    &&& forall|s: u32|
        s < capacity ==> (#[trigger] f.aabbs[s as int]) == aabb_at(slot_done(a, b, m, ks, n, s), s)
    &&& forall|k: Key| #[trigger]
        has_cells(b, k) && (ks.take(n).contains(k) || !cells_differ(a, b, b.resident[k].slot))
            ==> holds_words(f, b, k)
}

/// Freed slots are marked unused one after the other.
proof fn lemma_apply_frees(f: Buffers, freed: Seq<u32>, capacity: int)
    requires
        f.metas.len() == capacity,
        f.aabbs.len() == capacity,
        forall|i: int| 0 <= i < freed.len() ==> (#[trigger] freed[i]) < capacity,
    ensures
        ({
            let g = apply_changes(f, freed.map_values(|s: u32| freed_change(s)));
            &&& g.metas.len() == capacity
            &&& g.aabbs.len() == capacity
            &&& g.indices == f.indices
            &&& g.palettes == f.palettes
            &&& forall|s: u32|
                s < capacity ==> (#[trigger] g.metas[s as int]) == (if freed.contains(s) {
                    zero_meta()
                } else {
                    f.metas[s as int]
                })
            &&& forall|s: u32|
                s < capacity ==> (#[trigger] g.aabbs[s as int]) == (if freed.contains(s) {
                    GpuBrickAabb::Degenerate
                } else {
                    f.aabbs[s as int]
                })
        }),
    decreases freed.len(),
{
    let cs = freed.map_values(|s: u32| freed_change(s));
    if freed.len() > 0 {
        let front = freed.drop_last();
        assert forall|i: int| 0 <= i < front.len() implies (#[trigger] front[i]) < capacity by {
            assert(front[i] == freed[i]);
        }
        lemma_apply_frees(f, front, capacity);
        assert(cs.drop_last() =~= front.map_values(|s: u32| freed_change(s)));
        let last = freed.last();
        assert(freed[freed.len() - 1] == last);
        let g = apply_changes(f, cs.drop_last());
        let h = apply_changes(f, cs);
        assert forall|s: u32| freed.contains(s) == (front.contains(s) || s == last) by {
            if front.contains(s) {
                let w = choose|w: int| 0 <= w < front.len() && front[w] == s;
                assert(freed[w] == s);
            }
            if freed.contains(s) && s != last {
                let w = choose|w: int| 0 <= w < freed.len() && freed[w] == s;
                assert(front[w] == s);
            }
        }
        assert forall|s: u32| s < capacity implies (#[trigger] h.metas[s as int]) == (if freed.contains(s) {
            zero_meta()
        } else {
            f.metas[s as int]
        }) by {
            assert(g.metas[s as int] == (if front.contains(s) {
                zero_meta()
            } else {
                f.metas[s as int]
            }));
        }
        assert forall|s: u32| s < capacity implies (#[trigger] h.aabbs[s as int]) == (if freed.contains(s) {
            GpuBrickAabb::Degenerate
        } else {
            f.aabbs[s as int]
        }) by {
            assert(g.aabbs[s as int] == (if front.contains(s) {
                GpuBrickAabb::Degenerate
            } else {
                f.aabbs[s as int]
            }));
        }
    }
}

/// The upload of one more brick brings its slot and its words up to date and leaves the rest.
proof fn lemma_apply_brick(
    o: &ResidentPacker,
    n: &ResidentPacker,
    entries: Seq<ResidentBrick>,
    f: Buffers,
    ks: Seq<Key>,
    i: int,
)
    requires
        o.wf(),
        ResidentPacker::is_update(o, n, entries),
        !n.grown(),
        f.indices.len() == o.index_cap(),
        f.palettes.len() == o.palette_cap(),
        0 <= i < ks.len(),
        ks.no_duplicates(),
        forall|k: Key| #[trigger] ks.contains(k) <==> o.repacks(entries, k),
        forall|j: int| 0 <= j < ks.len() ==> n.state().resident.dom().contains(#[trigger] ks[j]),
        half_applied(
            f,
            o.state(),
            n.state(),
            resident_blocks(entries).dom(),
            ks,
            i,
            o.slot_cap(),
        ),
    ensures
        ({
            let g = apply_changes(f, slot_change(o.state(), n.state(), ks[i]));
            &&& half_applied(
                g,
                o.state(),
                n.state(),
                resident_blocks(entries).dom(),
                ks,
                i + 1,
                o.slot_cap(),
            )
            &&& g.indices.len() == f.indices.len()
            &&& g.palettes.len() == f.palettes.len()
        }),
{
    let a = o.state();
    let b = n.state();
    let m = resident_blocks(entries);
    let cap = o.slot_cap();
    let key = ks[i];
    let p = b.resident[key];
    let cs = slot_change(a, b, key);
    let g = apply_changes(f, cs);
    assert(ks.contains(key));
    assert(b.resident.dom().contains(key));
    n.law_places_are_disjoint(key, key);
    assert(shows(b, key, class_of_voxels(content(m, key))));
    assert(remembers(b, key, cells_of(content(m, key))));
    lemma_content_len(m, key);
    if cs.len() > 0 {
        assert(cs.drop_last() =~= Seq::empty());
        assert(apply_changes(f, cs.drop_last()) == f);
        assert(g == apply_change(f, cs[0]));
    } else {
        assert(g == f);
    }
    // The slots of the other bricks of the list are others.
    assert forall|j: int| 0 <= j < ks.len() && j != i implies b.resident[#[trigger] ks[j]].slot != p.slot by {
        n.law_places_are_disjoint(ks[j], key);
    }
    assert forall|s: u32| (#[trigger] slot_done(a, b, m.dom(), ks, i + 1, s)) == (if s == p.slot {
        b
    } else {
        slot_done(a, b, m.dom(), ks, i, s)
    }) by {
        if s == p.slot {
            assert(b.resident[ks[i]].slot == s);
        }
        if exists|j: int| 0 <= j < i && b.resident[#[trigger] ks[j]].slot == s {
            let j = choose|j: int| 0 <= j < i && b.resident[#[trigger] ks[j]].slot == s;
            assert(b.resident[ks[j]].slot == s);
        }
    }
    lemma_not_freed(o, n, entries, key);
    assert(slot_done(a, b, m.dom(), ks, i, p.slot) == a) by {
        if exists|j: int| 0 <= j < i && b.resident[#[trigger] ks[j]].slot == p.slot {
            let j = choose|j: int| 0 <= j < i && b.resident[#[trigger] ks[j]].slot == p.slot;
            assert(b.resident[ks[j]].slot != p.slot);
        }
    }
    assert forall|s: u32| s < cap implies (#[trigger] g.metas[s as int]) == meta_at(
        slot_done(a, b, m.dom(), ks, i + 1, s),
        s,
    ) by {
        assert(f.metas[s as int] == meta_at(slot_done(a, b, m.dom(), ks, i, s), s));
    }
    assert forall|s: u32| s < cap implies (#[trigger] g.aabbs[s as int]) == aabb_at(
        slot_done(a, b, m.dom(), ks, i + 1, s),
        s,
    ) by {
        assert(f.aabbs[s as int] == aabb_at(slot_done(a, b, m.dom(), ks, i, s), s));
    }
    let words = p.dense is Some && cells_differ(a, b, p.slot);
    assert forall|k: Key| #[trigger] has_cells(b, k) && (ks.take(i + 1).contains(k) || !cells_differ(
        a,
        b,
        b.resident[k].slot,
    )) implies holds_words(g, b, k) by {
        let c = b.cells[b.resident[k].slot];
        let e = b.resident[k].dense->0;
        n.lemma_cells_fit(k);
        lemma_index_stream(c);
        if k == key {
            if words {
                let d = p.dense->0;
                lemma_write_there(f.indices, d.index_offset as int, index_stream(c));
                lemma_write_there(f.palettes, d.palette_offset as int, palette_words(c));
            } else {
                assert(holds_words(f, b, k));
            }
        } else {
            assert(ks.take(i + 1).contains(k) ==> ks.take(i).contains(k)) by {
                if ks.take(i + 1).contains(k) {
                    let more = ks.take(i + 1);
                    let w = choose|w: int| 0 <= w < more.len() && more[w] == k;
                    assert(ks[w] == k);
                    assert(ks.take(i)[w] == k);
                }
            }
            assert(holds_words(f, b, k));
            if words {
                let d = p.dense->0;
                let own = b.cells[p.slot];
                n.law_places_are_disjoint(key, k);
                assert(has_cells(b, key));
                n.lemma_cells_fit(key);
                lemma_index_stream(own);
                lemma_write_apart(
                    f.indices,
                    d.index_offset as int,
                    index_stream(own),
                    e.index_offset as int,
                    index_stream(c),
                );
                lemma_write_apart(
                    f.palettes,
                    d.palette_offset as int,
                    palette_words(own),
                    e.palette_offset as int,
                    palette_words(c),
                );
            }
        }
    }
}

/// The slot of a brick that is there after an update was not freed by it.
pub(crate) proof fn lemma_not_freed(o: &ResidentPacker, n: &ResidentPacker, entries: Seq<ResidentBrick>, k: Key)
    requires
        o.wf(),
        ResidentPacker::is_update(o, n, entries),
        n.state().resident.dom().contains(k),
    ensures
        !is_freed(o.state(), resident_blocks(entries).dom(), n.state().resident[k].slot),
        resident_blocks(entries).dom().contains(k),
{
    let a = o.state();
    let b = n.state();
    let m = resident_blocks(entries).dom();
    let enter = o.newcomers(entries);
    o.lemma_room();
    lemma_resident_blocks(entries);
    lemma_entering(a.resident.dom(), o.slot_cap() - a.resident.dom().len(), entries);
    if enter.contains(k) {
        let i = choose|i: int| 0 <= i < entries.len() && (#[trigger] entries[i]).key_spec() == k;
        assert(m.contains(k));
    }
    if is_freed(a, m, b.resident[k].slot) {
        let d = choose|d: Key|
            #[trigger] leaves(a.resident.dom(), m, d) && a.resident[d].slot == b.resident[k].slot;
        assert(a.resident.dom().contains(d));
        assert(d == k);
    }
}

/// The uploads of an update bring the buffers from what the packer said before to what it says after:
/// buffers that mirrored the packer, with the changes of `delta` written into them, mirror it again, as
/// long as nothing was allocated past them.
pub proof fn law_delta_patches_buffers(
    o: &ResidentPacker,
    n: &ResidentPacker,
    entries: Seq<ResidentBrick>,
    delta: RepackDelta,
    f: Buffers,
)
    requires
        o.wf(),
        ResidentPacker::is_update(o, n, entries),
        is_delta(o, n, entries, delta),
        !n.grown(),
        mirrors(f, o.state(), o.slot_cap()),
        f.indices.len() == o.index_cap(),
        f.palettes.len() == o.palette_cap(),
    ensures
        mirrors(apply_changes(f, delta.changes()), n.state(), n.slot_cap()),
{
    let a = o.state();
    let b = n.state();
    let m = resident_blocks(entries).dom();
    let cap = o.slot_cap();
    let freed = delta.freed@;
    let drops = freed.map_values(|s: u32| freed_change(s));
    let ks = o.dirty_keys(entries);
    lemma_dirty(o, entries, ks);
    lemma_ascending_distinct(ks);
    assert forall|i: int| 0 <= i < freed.len() implies (#[trigger] freed[i]) < cap by {
        assert(freed.contains(freed[i]));
        let d = choose|d: Key| #[trigger] leaves(a.resident.dom(), m, d) && a.resident[d].slot == freed[i];
        o.law_places_are_disjoint(d, d);
    }
    lemma_apply_frees(f, freed, cap);
    let f1 = apply_changes(f, drops);
    assert forall|j: int| 0 <= j < ks.len() implies b.resident.dom().contains(#[trigger] ks[j]) by {
        assert(ks.contains(ks[j]));
        assert(o.repacks(entries, ks[j]));
    }
    assert(half_applied(f1, a, b, m, ks, 0, cap)) by {
        assert forall|s: u32| s < cap implies (#[trigger] f1.metas[s as int]) == meta_at(
            slot_done(a, b, m, ks, 0, s),
            s,
        ) && f1.aabbs[s as int] == aabb_at(slot_done(a, b, m, ks, 0, s), s) by {
            assert(f.metas[s as int] == meta_at(a, s));
            assert(f.aabbs[s as int] == aabb_at(a, s));
            assert(f1.aabbs[s as int] == (if freed.contains(s) {
                GpuBrickAabb::Degenerate
            } else {
                f.aabbs[s as int]
            }));
            if freed.contains(s) {
                assert(is_freed(a, m, s));
                assert(unused(b, s));
            }
        }
        assert forall|s: u32| s < cap implies (#[trigger] f1.aabbs[s as int]) == aabb_at(
            slot_done(a, b, m, ks, 0, s),
            s,
        ) by {
            assert(f1.metas[s as int] == meta_at(slot_done(a, b, m, ks, 0, s), s));
        }
        assert forall|k: Key| #[trigger] has_cells(b, k) && (ks.take(0).contains(k) || !cells_differ(
            a,
            b,
            b.resident[k].slot,
        )) implies holds_words(f1, b, k) by {
            lemma_unmoved(o, n, entries, k);
            assert(holds_words(f, a, k));
        }
    }
    lemma_apply_all(o, n, entries, f1, ks, ks.len() as int);
    assert(ks.take(ks.len() as int) =~= ks);
    let g = apply_changes(f1, slot_changes(a, b, ks));
    lemma_apply_append(f, drops, slot_changes(a, b, ks));
    let len = ks.len() as int;
    assert forall|s: u32| s < cap implies meta_at(slot_done(a, b, m, ks, len, s), s) == meta_at(b, s)
        && aabb_at(slot_done(a, b, m, ks, len, s), s) == aabb_at(b, s) by {
        if !(exists|j: int| 0 <= j < len && b.resident[#[trigger] ks[j]].slot == s) && !is_freed(a, m, s) {
            if exists|k: Key| #[trigger] b.resident.dom().contains(k) && b.resident[k].slot == s {
                let k = choose|k: Key| #[trigger] b.resident.dom().contains(k) && b.resident[k].slot == s;
                if o.repacks(entries, k) {
                    assert(ks.contains(k));
                    let j = choose|j: int| 0 <= j < ks.len() && ks[j] == k;
                    assert(b.resident[ks[j]].slot == s);
                }
                assert(same_slot(a, b, s));
            } else {
                assert(same_slot(a, b, s));
            }
        }
    }
    assert forall|s: u32| s < cap implies (#[trigger] g.metas[s as int]) == meta_at(b, s) by {
        assert(g.metas[s as int] == meta_at(slot_done(a, b, m, ks, len, s), s));
    }
    assert forall|s: u32| s < cap implies (#[trigger] g.aabbs[s as int]) == aabb_at(b, s) by {
        assert(g.aabbs[s as int] == aabb_at(slot_done(a, b, m, ks, len, s), s));
    }
    assert forall|k: Key| #[trigger] has_cells(b, k) implies holds_words(g, b, k) by {
        if !ks.contains(k) {
            assert(!o.repacks(entries, k));
            assert(b.resident.dom().contains(k));
            assert(same_slot(a, b, b.resident[k].slot));
        }
    }
}

/// The list of the bricks that are packed anew has just those.
proof fn lemma_dirty(o: &ResidentPacker, entries: Seq<ResidentBrick>, ks: Seq<Key>)
    requires
        lists(ks, o.dirty_set(entries)),
    ensures
        keys_ascend(ks),
        forall|k: Key| #[trigger] ks.contains(k) <==> o.repacks(entries, k),
{
    assert forall|k: Key| #[trigger] ks.contains(k) <==> o.repacks(entries, k) by {
        assert(ks.contains(k) <==> o.dirty_set(entries).contains(k));
    }
}

/// A brick whose cells are the same as before was there before, at the same offsets.
proof fn lemma_unmoved(o: &ResidentPacker, n: &ResidentPacker, entries: Seq<ResidentBrick>, k: Key)
    requires
        o.wf(),
        ResidentPacker::is_update(o, n, entries),
        has_cells(n.state(), k),
        !cells_differ(o.state(), n.state(), n.state().resident[k].slot),
    ensures
        has_cells(o.state(), k),
        o.state().resident[k].slot == n.state().resident[k].slot,
        o.state().cells[o.state().resident[k].slot] == n.state().cells[n.state().resident[k].slot],
        o.state().resident[k].dense->0.index_offset == n.state().resident[k].dense->0.index_offset,
        o.state().resident[k].dense->0.palette_offset == n.state().resident[k].dense->0.palette_offset,
{
    let a = o.state();
    let b = n.state();
    let s = b.resident[k].slot;
    let j = o.lemma_cells_owner(s);
    assert(a.resident.dom().contains(j) && b.resident.dom().contains(k));
    assert(j == k);
    o.lemma_cells_fit(k);
    n.lemma_cells_fit(k);
}

/// The uploads of all bricks of the list, applied one after the other.
proof fn lemma_apply_all(
    o: &ResidentPacker,
    n: &ResidentPacker,
    entries: Seq<ResidentBrick>,
    f: Buffers,
    ks: Seq<Key>,
    i: int,
)
    requires
        o.wf(),
        ResidentPacker::is_update(o, n, entries),
        !n.grown(),
        f.indices.len() == o.index_cap(),
        f.palettes.len() == o.palette_cap(),
        0 <= i <= ks.len(),
        ks.no_duplicates(),
        forall|k: Key| #[trigger] ks.contains(k) <==> o.repacks(entries, k),
        forall|j: int| 0 <= j < ks.len() ==> n.state().resident.dom().contains(#[trigger] ks[j]),
        half_applied(
            f,
            o.state(),
            n.state(),
            resident_blocks(entries).dom(),
            ks,
            0,
            o.slot_cap(),
        ),
    ensures
        ({
            let g = apply_changes(f, slot_changes(o.state(), n.state(), ks.take(i)));
            &&& half_applied(
                g,
                o.state(),
                n.state(),
                resident_blocks(entries).dom(),
                ks,
                i,
                o.slot_cap(),
            )
            &&& g.indices.len() == f.indices.len()
            &&& g.palettes.len() == f.palettes.len()
        }),
    decreases i,
{
    let a = o.state();
    let b = n.state();
    if i > 0 {
        lemma_apply_all(o, n, entries, f, ks, i - 1);
        let g = apply_changes(f, slot_changes(a, b, ks.take(i - 1)));
        lemma_apply_brick(o, n, entries, g, ks, i - 1);
        assert(ks.take(i).drop_last() =~= ks.take(i - 1));
        assert(ks.take(i).last() == ks[i - 1]);
        lemma_apply_append(f, slot_changes(a, b, ks.take(i - 1)), slot_change(a, b, ks[i - 1]));
    }
}

/// Every cell of every brick reads back from buffers that mirror a packer which shows the set `m`: the
/// block that a packing from scratch has there.
pub proof fn law_buffers_read_back(n: &ResidentPacker, f: Buffers, m: Blocks, k: Key, i: int)
    requires
        n.wf(),
        mirrors(f, n.state(), n.slot_cap()),
        shows_set(n.state(), m),
        n.state().resident.dom().contains(k),
        n.state().resident[k].dense is Some ==> n.state().cells.dom().contains(
            n.state().resident[k].slot,
        ),
        0 <= i < 1000,
    ensures
        ({
            let meta = f.metas[n.state().resident[k].slot as int];
            &&& readable(f.indices, f.palettes, meta, i)
            &&& cell_id(f.indices, f.palettes, meta, i) == halo_block(m[k], m, k, i)
        }),
{
    let st = n.state();
    let slot = st.resident[k].slot;
    n.law_places_are_disjoint(k, k);
    n.lemma_key_ok(k);
    assert(stores(st, k, content(m, k)));
    let meta = f.metas[slot as int];
    assert(meta == st.metas[slot]);
    match content(m, k) {
        VoxelsView::Uniform(b) => {
            assert((0x8000_0000 + b.0) % 0x1_0000 == b.0);
            assert(halo_block(m[k], m, k, i) == m[k][0]);
        },
        VoxelsView::Dense(cells) => {
            let d = st.resident[k].dense->0;
            assert(has_cells(st, k));
            assert(holds_words(f, st, k));
            n.lemma_cells_fit(k);
            law_meta_reads_back(
                f.indices,
                f.palettes,
                crate::pack::origin_of(k),
                crate::pack::coord_of(k),
                d.index_offset,
                d.palette_offset,
                k.3,
                cells,
                i,
            );
            n.lemma_offsets(k);
            let id = halo_block(m[k], m, k, i).0;
            assert(cells[i] == id as u32);
            assert((id as u32) as u16 == id);
        },
    }
}

} // verus!
