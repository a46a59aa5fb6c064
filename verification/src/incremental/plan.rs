//! Where an update puts the bricks: the slots and the blocks that it hands out, as functions of what was there.

use super::{index_sizes, palette_sizes, stream_words, Classification, DenseSlot, SlotState};
use crate::brickmap::Key;
use crate::pack::ResidentBrick;
use crate::paletted::width_for;
use crate::pools::{
    class_for, claim_slot, give_block, give_slot, release_blocks, release_slots, take_block, PoolPlan, SlotPlan,
};
use crate::sort::{key_before, keys_ascend};
use vstd::prelude::*;

verus! {

/// The place of every resident brick, and what slots and blocks are handed out by.
#[verifier::ext_equal]
pub struct Places {
    pub resident: Map<Key, SlotState>,
    pub slots: SlotPlan,
    pub index: PoolPlan,
    pub palette: PoolPlan,
}

/// Whether every offset leaves room for the mark of a uniform brick.
pub open spec fn fits(p: Places) -> bool {
    p.index.used < 0x8000_0000 && p.palette.used < 0x8000_0000
}

/// The places after the quarantines were emptied.
pub open spec fn released(p: Places) -> Places {
    Places {
        resident: p.resident,
        slots: release_slots(p.slots),
        index: release_blocks(index_sizes(), p.index),
        palette: release_blocks(palette_sizes(), p.palette),
    }
}

/// The places after the blocks of a brick were given back.
pub open spec fn retired(p: Places, dense: Option<DenseSlot>) -> Places {
    match dense {
        None => p,
        Some(d) => Places {
            index: give_block(p.index, d.index_offset, stream_words(d.index_bits) as u32),
            palette: give_block(p.palette, d.palette_offset, d.palette_k),
            ..p
        },
    }
}

/// The places after brick `k` left: its slot and its blocks were given back.
pub open spec fn left(p: Places, k: Key) -> Places {
    let st = p.resident[k];
    Places {
        resident: p.resident.remove(k),
        slots: give_slot(p.slots, st.slot),
        ..retired(p, st.dense)
    }
}

/// The places after the bricks `ks` left, one after the other.
pub open spec fn all_left(p: Places, ks: Seq<Key>) -> Places
    decreases ks.len(),
{
    if ks.len() == 0 {
        p
    } else {
        left(all_left(p, ks.drop_last()), ks.last())
    }
}

/// The places after brick `k` came: where it has no slot and there is one, it gets that.
pub open spec fn entered(p: Places, k: Key) -> Places {
    if p.resident.dom().contains(k) {
        p
    } else {
        match claim_slot(p.slots).1 {
            Some(slot) => Places {
                resident: p.resident.insert(k, SlotState { slot, dense: None }),
                slots: claim_slot(p.slots).0,
                ..p
            },
            None => p,
        }
    }
}

/// The places after the bricks of a list came, one after the other.
pub open spec fn all_entered(p: Places, entries: Seq<ResidentBrick>) -> Places
    decreases entries.len(),
{
    if entries.len() == 0 {
        p
    } else {
        entered(all_entered(p, entries.drop_last()), entries.last().key_spec())
    }
}

/// The index block of a brick that had the blocks `had` and is of width `bits` now: the one that it had, where it
/// is of that width, and else another one, with the one that it had given back.
pub open spec fn index_for(p: PoolPlan, had: Option<DenseSlot>, bits: u8) -> (PoolPlan, u32) {
    match had {
        Some(e) => if e.index_bits == bits {
            (p, e.index_offset)
        } else {
            take_block(
                index_sizes(),
                give_block(p, e.index_offset, stream_words(e.index_bits) as u32),
                stream_words(bits),
            )
        },
        None => take_block(index_sizes(), p, stream_words(bits)),
    }
}

/// The palette block of a brick that had the blocks `had` and has `k` distinct blocks now: the one that it had, where
/// it is of the right class, and else another one, with the one that it had given back.
pub open spec fn palette_for(p: PoolPlan, had: Option<DenseSlot>, k: u32) -> (PoolPlan, u32) {
    match had {
        Some(e) => if class_for(palette_sizes(), e.palette_k as int) == class_for(palette_sizes(), k as int) {
            (p, e.palette_offset)
        } else {
            take_block(palette_sizes(), give_block(p, e.palette_offset, e.palette_k), k as int)
        },
        None => take_block(palette_sizes(), p, k as int),
    }
}

/// The blocks of a dense brick that had the blocks `had` and has `palette_k` distinct blocks now.
pub open spec fn dense_for(p: Places, had: Option<DenseSlot>, palette_k: u32) -> DenseSlot {
    let bits = width_for(palette_k as nat) as u8;
    DenseSlot {
        index_offset: index_for(p.index, had, bits).1,
        index_bits: bits,
        palette_offset: palette_for(p.palette, had, palette_k).1,
        palette_k,
    }
}

/// The places after brick `k` was placed as its class asks: it keeps its slot.
pub open spec fn settled(p: Places, k: Key, class: Classification) -> Places {
    let st = p.resident[k];
    match class {
        Classification::Uniform(_) => Places {
            resident: p.resident.insert(k, SlotState { slot: st.slot, dense: None }),
            ..retired(p, st.dense)
        },
        Classification::Dense { palette_k } => Places {
            resident: p.resident.insert(
                k,
                SlotState { slot: st.slot, dense: Some(dense_for(p, st.dense, palette_k)) },
            ),
            slots: p.slots,
            index: index_for(p.index, st.dense, width_for(palette_k as nat) as u8).0,
            palette: palette_for(p.palette, st.dense, palette_k).0,
        },
    }
}

/// The places after the bricks `ks` were placed as their classes ask, one after the other.
pub open spec fn all_settled(p: Places, ks: Seq<Key>, class: spec_fn(Key) -> Classification) -> Places
    decreases ks.len(),
{
    if ks.len() == 0 {
        p
    } else {
        settled(all_settled(p, ks.drop_last(), class), ks.last(), class(ks.last()))
    }
}

/// Whether `ks` lists the keys of `s` in ascending order.
pub open spec fn lists(ks: Seq<Key>, s: Set<Key>) -> bool {
    &&& keys_ascend(ks)
    &&& forall|k: Key| #[trigger] ks.contains(k) <==> s.contains(k)
}

/// The keys of `s` in ascending order.
pub open spec fn ascending(s: Set<Key>) -> Seq<Key> {
    choose|ks: Seq<Key>| lists(ks, s)
}

/// A set of keys has one list in ascending order.
pub proof fn law_ascending_unique(a: Seq<Key>, b: Seq<Key>, s: Set<Key>)
    requires
        lists(a, s),
        lists(b, s),
    ensures
        a == b,
    decreases a.len() + b.len(),
{
    if a.len() == 0 {
        if b.len() > 0 {
            assert(b.contains(b[0]));
            assert(a.contains(b[0]));
        }
        assert(a =~= b);
    } else if b.len() == 0 {
        assert(a.contains(a[0]));
        assert(b.contains(a[0]));
    } else {
        let x = a.last();
        assert(x == b.last()) by {
            assert(a.contains(a[a.len() - 1]));
            assert(b.contains(b[b.len() - 1]));
            assert(b.contains(x));
            assert(a.contains(b.last()));
            let i = choose|i: int| 0 <= i < b.len() && b[i] == x;
            let j = choose|j: int| 0 <= j < a.len() && a[j] == b.last();
            if i < b.len() - 1 {
                assert(key_before(b[i], b[b.len() - 1]));
                if j < a.len() - 1 {
                    assert(key_before(a[j], a[a.len() - 1]));
                }
            }
        }
        let t = s.remove(x);
        lemma_lists_front(a, s);
        lemma_lists_front(b, s);
        law_ascending_unique(a.drop_last(), b.drop_last(), t);
        assert(a =~= a.drop_last().push(x));
        assert(b =~= b.drop_last().push(x));
    }
}

proof fn lemma_lists_front(a: Seq<Key>, s: Set<Key>)
    requires
        lists(a, s),
        a.len() > 0,
    ensures
        lists(a.drop_last(), s.remove(a.last())),
{
    let front = a.drop_last();
    let t = s.remove(a.last());
    assert forall|i: int, j: int| 0 <= i < j < front.len() implies key_before(#[trigger] front[i], #[trigger] front[j]) by {
        assert(key_before(a[i], a[j]));
    }
    assert forall|k: Key| #[trigger] front.contains(k) <==> t.contains(k) by {
        if front.contains(k) {
            let w = choose|w: int| 0 <= w < front.len() && front[w] == k;
            assert(a[w] == k);
            assert(a.contains(k));
            assert(key_before(a[w], a[a.len() - 1]));
        }
        if t.contains(k) {
            assert(a.contains(k));
            let w = choose|w: int| 0 <= w < a.len() && a[w] == k;
            assert(front[w] == k);
        }
    }
}

/// Where key `a` belongs in an ascending list without it, looked for from `n` on.
proof fn lemma_position(ks: Seq<Key>, a: Key, n: int) -> (i: int)
    requires
        keys_ascend(ks),
        !ks.contains(a),
        0 <= n <= ks.len(),
        forall|j: int| 0 <= j < n ==> key_before(#[trigger] ks[j], a),
    ensures
        0 <= i <= ks.len(),
        forall|j: int| 0 <= j < i ==> key_before(#[trigger] ks[j], a),
        forall|j: int| i <= j < ks.len() ==> key_before(a, #[trigger] ks[j]),
    decreases ks.len() - n,
{
    if n == ks.len() {
        n
    } else {
        assert(ks.contains(ks[n]));
        if key_before(a, ks[n]) {
            assert forall|j: int| n <= j < ks.len() implies key_before(a, #[trigger] ks[j]) by {
                if n < j {
                    assert(key_before(ks[n], ks[j]));
                }
            }
            n
        } else {
            assert(key_before(ks[n], a));
            lemma_position(ks, a, n + 1)
        }
    }
}

/// A finite set of keys has a list in ascending order.
pub proof fn law_ascending_exists(s: Set<Key>)
    requires
        s.finite(),
    ensures
        lists(ascending(s), s),
    decreases s.len(),
{
    if s.len() == 0 {
        let ks = Seq::<Key>::empty();
        assert(s =~= Set::empty());
        assert(lists(ks, s));
    } else {
        let a = s.choose();
        let t = s.remove(a);
        law_ascending_exists(t);
        let ks = ascending(t);
        assert(!ks.contains(a)) by {
            assert(!t.contains(a));
        }
        let i = lemma_position(ks, a, 0);
        let r = ks.insert(i, a);
        assert forall|x: int, y: int| 0 <= x < y < r.len() implies key_before(#[trigger] r[x], #[trigger] r[y]) by {
            let p = if x < i { x } else { x - 1 };
            let q = if y < i { y } else { y - 1 };
            if x != i && y != i {
                assert(r[x] == ks[p] && r[y] == ks[q]);
                assert(key_before(ks[p], ks[q]));
            } else if x == i {
                assert(r[y] == ks[q]);
                assert(key_before(a, ks[q]));
            } else {
                assert(r[x] == ks[p]);
                assert(key_before(ks[p], a));
            }
        }
        assert forall|k: Key| #[trigger] r.contains(k) <==> s.contains(k) by {
            assert(ks.contains(k) <==> t.contains(k));
            if r.contains(k) && k != a {
                let w = choose|w: int| 0 <= w < r.len() && r[w] == k;
                assert(w != i);
                assert(ks[if w < i { w } else { w - 1 }] == k);
            }
            if k == a {
                assert(r[i] == a);
            }
            if ks.contains(k) {
                let w = choose|w: int| 0 <= w < ks.len() && ks[w] == k;
                assert(r[if w < i { w } else { w + 1 }] == k);
            }
        }
        assert(lists(r, s));
    }
}

/// Placing bricks takes no words back.
pub proof fn lemma_used_grows(p: Places, ks: Seq<Key>, n: int, class: spec_fn(Key) -> Classification)
    requires
        0 <= n <= ks.len(),
    ensures
        all_settled(p, ks.take(n), class).index.used <= all_settled(p, ks, class).index.used,
        all_settled(p, ks.take(n), class).palette.used <= all_settled(p, ks, class).palette.used,
    decreases ks.len() - n,
{
    if n == ks.len() {
        assert(ks.take(n) =~= ks);
    } else {
        lemma_used_grows(p, ks, n + 1, class);
        assert(ks.take(n + 1).drop_last() =~= ks.take(n));
    }
}

/// Bricks that leave or come take no words.
pub proof fn lemma_used_stays(p: Places, ks: Seq<Key>, entries: Seq<ResidentBrick>)
    ensures
        all_left(p, ks).index.used == p.index.used,
        all_left(p, ks).palette.used == p.palette.used,
        all_entered(p, entries).index == p.index,
        all_entered(p, entries).palette == p.palette,
    decreases ks.len() + entries.len(),
{
    if ks.len() > 0 {
        lemma_used_stays(p, ks.drop_last(), entries);
    } else if entries.len() > 0 {
        lemma_used_stays(p, ks, entries.drop_last());
    }
}

/// The words that placing bricks may take: for each at most an index block and a palette block that hold what bricks with
/// `most` distinct blocks need, and none where a free block of the class is there.
pub proof fn law_words_suffice(p: Places, ks: Seq<Key>, class: spec_fn(Key) -> Classification, most: int)
    requires
        most == 256 || most == 1000,
        forall|i: int|
            0 <= i < ks.len() ==> (class(#[trigger] ks[i]) matches Classification::Dense { palette_k } ==> palette_k
                <= most),
    ensures
        all_settled(p, ks, class).index.used <= p.index.used + (if most == 256 { 250int } else { 500 }) * ks.len(),
        all_settled(p, ks, class).palette.used <= p.palette.used + (if most == 256 { 256int } else { 1024 }) * ks.len(),
    decreases ks.len(),
{
    if ks.len() > 0 {
        let front = ks.drop_last();
        assert forall|i: int| 0 <= i < front.len() implies (class(#[trigger] front[i]) matches Classification::Dense {
            palette_k,
        } ==> palette_k <= most) by {
            assert(front[i] == ks[i]);
        }
        law_words_suffice(p, front, class, most);
        let k = ks[ks.len() - 1];
        if let Classification::Dense { palette_k } = class(k) {
            lemma_block_sizes(palette_k as int, most);
        }
        let n = ks.len() as int;
        assert(250 * n == 250 * (n - 1) + 250 && 500 * n == 500 * (n - 1) + 500);
        assert(256 * n == 256 * (n - 1) + 256 && 1024 * n == 1024 * (n - 1) + 1024);
    }
}

/// The blocks that a brick with `k` distinct blocks needs.
proof fn lemma_block_sizes(k: int, most: int)
    requires
        0 <= k <= most,
        most == 256 || most == 1000,
    ensures
        index_sizes()[class_for(index_sizes(), stream_words(width_for(k as nat) as u8))] <= (if most == 256 {
            250int
        } else {
            500
        }),
        palette_sizes()[class_for(palette_sizes(), k)] <= (if most == 256 {
            256int
        } else {
            1024
        }),
{
    let bits = width_for(k as nat) as u8;
    super::lemma_index_class(bits);
    super::lemma_palette_class(k);
    if most == 256 {
        let s = palette_sizes();
        let t = index_sizes();
        let c = class_for(s, k);
        let d = class_for(t, stream_words(bits));
        if c > 7 {
            assert(s[7] < k);
        }
        if d > 3 {
            assert(t[3] < stream_words(bits));
        }
    }
}

} // verus!
