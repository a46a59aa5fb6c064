//! A brick's cells as a tiny palette plus bit-packed indices.
//!
//! A brick touches few distinct block ids. Its cells are stored as the list of those ids, in the order
//! in which they are first seen, and one index into that list per cell. The index width is a power of
//! two, so an index never straddles a word and a cell is read with one fetch, one shift and one mask.

use crate::fxmap::{fx_get, fx_insert, fx_new};
use rustc_hash::FxHashMap;
use vstd::prelude::*;

verus! {

/// A brick's haloed cells encoded as a palette and bit-packed indices.
#[derive(Clone, Debug, PartialEq, Eq)]
pub struct PalettedBrick {
    /// The distinct block ids, in first-seen order.
    pub palette: Vec<u16>,
    /// Bits per index, one of 1, 2, 4, 8 and 16: the smallest that can index the palette.
    pub index_bits: u8,
    /// The bit-packed index stream.
    pub indices: Vec<u32>,
}

/// The block id that a cell holds: its low sixteen bits.
pub open spec fn id_of(cell: u32) -> u16 {
    cell as u16
}

/// The distinct ids of `cells`, each at the place where it is first seen.
pub open spec fn first_seen(cells: Seq<u32>) -> Seq<u16>
    decreases cells.len(),
{
    if cells.len() == 0 {
        Seq::empty()
    } else {
        let before = first_seen(cells.drop_last());
        if before.contains(id_of(cells.last())) {
            before
        } else {
            before.push(id_of(cells.last()))
        }
    }
}

/// The smallest width among 1, 2, 4, 8 and 16 that can index `k` distinct ids, up to 65536 of them.
pub open spec fn width_for(k: nat) -> nat {
    if k <= 2 {
        1
    } else if k <= 4 {
        2
    } else if k <= 16 {
        4
    } else if k <= 256 {
        8
    } else {
        16
    }
}

/// Whether `bits` is one of the index widths.
pub open spec fn is_width(bits: nat) -> bool {
    bits == 1 || bits == 2 || bits == 4 || bits == 8 || bits == 16
}

/// The mask of the low `bits` bits of a word.
pub open spec fn low_mask(bits: nat) -> u32 {
    if bits == 32 {
        u32::MAX
    } else {
        ((1u32 << (bits as u32)) - 1) as u32
    }
}

/// Field `i` of a stream of `bits`-wide fields.
pub open spec fn field(words: Seq<u32>, bits: nat, i: int) -> u32 {
    (words[(i * bits) / 32] >> (((i * bits) % 32) as u32)) & low_mask(bits)
}

/// The number of words that `n` fields of `bits` bits take.
pub open spec fn words_for(n: nat, bits: nat) -> nat {
    (n * bits + 31) / 32
}

/// Whether `words` is the packing of `fields` at width `bits`: it has just the words that are needed,
/// its fields are those values, and what is left of the last word is zero.
pub open spec fn is_packing(words: Seq<u32>, bits: nat, fields: Seq<u32>) -> bool {
    &&& words.len() == words_for(fields.len(), bits)
    &&& forall|i: int|
        0 <= i < fields.len() ==> #[trigger] field(words, bits, i) == fields[i]
    &&& forall|i: int|
        fields.len() <= i && i * bits < words.len() * 32 ==> #[trigger] field(words, bits, i) == 0
}

/// The palette index of every cell.
pub open spec fn locals(cells: Seq<u32>) -> Seq<u32> {
    cells.map_values(|c: u32| first_seen(cells).index_of(id_of(c)) as u32)
}

/// The width at which `cells` are packed.
pub open spec fn cells_width(cells: Seq<u32>) -> nat {
    width_for(first_seen(cells).len())
}

/// The index stream of `cells`: the packing of their palette indices, of which there is just one.
pub open spec fn index_stream(cells: Seq<u32>) -> Seq<u32> {
    choose|w: Seq<u32>| is_packing(w, cells_width(cells), locals(cells))
}

proof fn lemma_field_pos(bits: nat, i: int)
    requires
        is_width(bits),
        0 <= i,
    ensures
        (i * bits) / 32 == i / (32int / bits as int),
        (i * bits) % 32 == (i % (32int / bits as int)) * bits,
        0 <= (i * bits) % 32 <= 32 - bits,
        ((i * bits) % 32) % (bits as int) == 0,
        (i * bits) / 32 >= 0,
{
    if bits == 1 {
    } else if bits == 2 {
        assert((i * 2) / 32 == i / 16 && (i * 2) % 32 == (i % 16) * 2);
    } else if bits == 4 {
        assert((i * 4) / 32 == i / 8 && (i * 4) % 32 == (i % 8) * 4);
    } else if bits == 8 {
        assert((i * 8) / 32 == i / 4 && (i * 8) % 32 == (i % 4) * 8);
    } else {
        assert((i * 16) / 32 == i / 2 && (i * 16) % 32 == (i % 2) * 16);
    }
}

/// Two fields that start at the same bit of the same word are the same field.
proof fn lemma_field_apart(bits: nat, i: int, j: int)
    requires
        is_width(bits),
        0 <= i,
        0 <= j,
        (i * bits) / 32 == (j * bits) / 32,
        (i * bits) % 32 == (j * bits) % 32,
    ensures
        i == j,
{
    assert(i * bits == j * bits);
    assert(i == j) by (nonlinear_arith)
        requires
            i * bits == j * bits,
            bits > 0,
    ;
}

/// Writing `v` over an empty field at bit `s` sets that field and leaves the field at bit `t` alone.
proof fn lemma_put(w: u32, v: u32, bits: nat, s: u32, t: u32)
    requires
        is_width(bits),
        s <= 32 - bits,
        t <= 32 - bits,
        s as int % bits as int == 0,
        t as int % bits as int == 0,
        v <= low_mask(bits),
        (w >> s) & low_mask(bits) == 0,
    ensures
        ((w | ((v & low_mask(bits)) << s)) >> t) & low_mask(bits) == (if s == t {
            v
        } else {
            (w >> t) & low_mask(bits)
        }),
{
    lemma_masks();
    if bits == 1 {
        assert(((w | ((v & 1) << s)) >> t) & 1 == (if s == t { v } else { (w >> t) & 1 })) by (bit_vector)
            requires
                s <= 31, t <= 31, v <= 1, (w >> s) & 1 == 0,
        ;
    } else if bits == 2 {
        assert(((w | ((v & 3) << s)) >> t) & 3 == (if s == t { v } else { (w >> t) & 3 })) by (bit_vector)
            requires
                s <= 30, t <= 30, s % 2 == 0, t % 2 == 0, v <= 3, (w >> s) & 3 == 0,
        ;
    } else if bits == 4 {
        assert(((w | ((v & 15) << s)) >> t) & 15 == (if s == t { v } else { (w >> t) & 15 })) by (bit_vector)
            requires
                s <= 28, t <= 28, s % 4 == 0, t % 4 == 0, v <= 15, (w >> s) & 15 == 0,
        ;
    } else if bits == 8 {
        assert(((w | ((v & 255) << s)) >> t) & 255 == (if s == t { v } else { (w >> t) & 255 }))
            by (bit_vector)
            requires
                s <= 24, t <= 24, s % 8 == 0, t % 8 == 0, v <= 255, (w >> s) & 255 == 0,
        ;
    } else {
        assert(((w | ((v & 65535) << s)) >> t) & 65535 == (if s == t { v } else { (w >> t) & 65535 }))
            by (bit_vector)
            requires
                s <= 16, t <= 16, s % 16 == 0, t % 16 == 0, v <= 65535, (w >> s) & 65535 == 0,
        ;
    }
}

/// The masks of the five widths.
proof fn lemma_masks()
    ensures
        low_mask(1) == 1,
        low_mask(2) == 3,
        low_mask(4) == 15,
        low_mask(8) == 255,
        low_mask(16) == 65535,
{
    assert(1u32 << 1u32 == 2 && 1u32 << 2u32 == 4 && 1u32 << 4u32 == 16 && 1u32 << 8u32 == 256 && 1u32
        << 16u32 == 65536) by (bit_vector);
}

/// The `bits`-wide field of word `a` at bit `t`.
spec fn word_field(a: u32, bits: nat, t: u32) -> u32 {
    (a >> t) & low_mask(bits)
}

/// Words whose fields agree are equal.
proof fn lemma_word_eq(a: u32, b: u32, bits: nat)
    requires
        is_width(bits),
        forall|t: u32|
            t <= 32 - bits && t as int % bits as int == 0 ==> #[trigger] word_field(a, bits, t)
                == word_field(b, bits, t),
    ensures
        a == b,
    decreases 32 - bits,
{
    lemma_masks();
    if bits == 16 {
        assert(word_field(a, 16, 0) == word_field(b, 16, 0));
        assert(word_field(a, 16, 16) == word_field(b, 16, 16));
        assert(a == b) by (bit_vector)
            requires
                (a >> 0u32) & 65535 == (b >> 0u32) & 65535,
                (a >> 16u32) & 65535 == (b >> 16u32) & 65535,
        ;
    } else {
        let w = 2 * bits;
        assert forall|t: u32| t <= 32 - w && t as int % w as int == 0 implies #[trigger] word_field(
            a,
            w,
            t,
        ) == word_field(b, w, t) by {
            let u = (t + bits) as u32;
            assert(u as int % bits as int == 0 && t as int % bits as int == 0) by {
                if bits == 1 {
                } else if bits == 2 {
                } else if bits == 4 {
                } else {
                }
            }
            assert(word_field(a, bits, t) == word_field(b, bits, t));
            assert(word_field(a, bits, u) == word_field(b, bits, u));
            lemma_join(a, b, bits, t);
        }
        lemma_word_eq(a, b, w);
    }
}

/// Two neighbouring fields make up the field of twice the width.
proof fn lemma_join(a: u32, b: u32, bits: nat, t: u32)
    requires
        bits == 1 || bits == 2 || bits == 4 || bits == 8,
        t <= 32 - 2 * bits,
        (a >> t) & low_mask(bits) == (b >> t) & low_mask(bits),
        (a >> ((t + bits) as u32)) & low_mask(bits) == (b >> ((t + bits) as u32)) & low_mask(bits),
    ensures
        (a >> t) & low_mask(2 * bits) == (b >> t) & low_mask(2 * bits),
{
    lemma_masks();
    let u = (t + bits) as u32;
    if bits == 1 {
        assert((a >> t) & 3 == (b >> t) & 3) by (bit_vector)
            requires
                t <= 30, u == t + 1, (a >> t) & 1 == (b >> t) & 1, (a >> u) & 1 == (b >> u) & 1,
        ;
    } else if bits == 2 {
        assert((a >> t) & 15 == (b >> t) & 15) by (bit_vector)
            requires
                t <= 28, u == t + 2, (a >> t) & 3 == (b >> t) & 3, (a >> u) & 3 == (b >> u) & 3,
        ;
    } else if bits == 4 {
        assert((a >> t) & 255 == (b >> t) & 255) by (bit_vector)
            requires
                t <= 24, u == t + 4, (a >> t) & 15 == (b >> t) & 15, (a >> u) & 15 == (b >> u) & 15,
        ;
    } else {
        assert((a >> t) & 65535 == (b >> t) & 65535) by (bit_vector)
            requires
                t <= 16, u == t + 8, (a >> t) & 255 == (b >> t) & 255, (a >> u) & 255 == (b >> u) & 255,
        ;
    }
}

/// A sequence of fields has one packing.
pub proof fn lemma_packing_unique(v: Seq<u32>, w: Seq<u32>, bits: nat, fields: Seq<u32>)
    requires
        is_width(bits),
        is_packing(v, bits, fields),
        is_packing(w, bits, fields),
    ensures
        v == w,
{
    assert forall|j: int| 0 <= j < v.len() implies v[j] == w[j] by {
        assert forall|t: u32| t <= 32 - bits && t as int % bits as int == 0 implies #[trigger] word_field(
            v[j],
            bits,
            t,
        ) == word_field(w[j], bits, t) by {
            let i: int = lemma_field_at(bits, j, t as int);
            assert(field(v, bits, i) == field(w, bits, i));
        }
        lemma_word_eq(v[j], w[j], bits);
    }
    assert(v =~= w);
}

/// The field that starts at bit `t` of word `j`.
proof fn lemma_field_at(bits: nat, j: int, t: int) -> (i: int)
    requires
        is_width(bits),
        0 <= j,
        0 <= t <= 32 - bits,
        t % bits as int == 0,
    ensures
        0 <= i,
        i * bits == 32 * j + t,
        (i * bits) / 32 == j,
        (i * bits) % 32 == t,
{
    if bits == 1 {
        32 * j + t
    } else if bits == 2 {
        16 * j + t / 2
    } else if bits == 4 {
        8 * j + t / 4
    } else if bits == 8 {
        4 * j + t / 8
    } else {
        2 * j + t / 16
    }
}

/// The ids of `first_seen` are distinct, they are just the ids of the cells, and there are at most
/// 65536 of them and at most as many as there are cells.
pub proof fn lemma_first_seen(cells: Seq<u32>)
    ensures
        first_seen(cells).no_duplicates(),
        first_seen(cells).len() <= cells.len(),
        first_seen(cells).len() <= 65536,
        cells.len() > 0 ==> first_seen(cells).len() > 0,
        forall|i: int| 0 <= i < cells.len() ==> first_seen(cells).contains(id_of(#[trigger] cells[i])),
        forall|j: int|
            0 <= j < first_seen(cells).len() ==> exists|i: int|
                0 <= i < cells.len() && id_of(#[trigger] cells[i]) == #[trigger] first_seen(cells)[j],
    decreases cells.len(),
{
    if cells.len() > 0 {
        let front = cells.drop_last();
        lemma_first_seen(front);
        let before = first_seen(front);
        let after = first_seen(cells);
        assert forall|i: int| 0 <= i < cells.len() implies after.contains(id_of(#[trigger] cells[i])) by {
            if i < front.len() {
                assert(front[i] == cells[i]);
                assert(before.contains(id_of(front[i])));
                let j = choose|j: int| 0 <= j < before.len() && before[j] == id_of(front[i]);
                assert(after[j] == before[j]);
            } else if !before.contains(id_of(cells.last())) {
                assert(after[before.len() as int] == id_of(cells[i]));
            }
        }
        assert forall|j: int| 0 <= j < after.len() implies exists|i: int|
            0 <= i < cells.len() && id_of(#[trigger] cells[i]) == #[trigger] after[j] by {
            if j < before.len() {
                assert(before[j] == after[j]);
                let i = choose|i: int|
                    0 <= i < front.len() && id_of(#[trigger] front[i]) == before[j];
                assert(cells[i] == front[i]);
            } else {
                assert(id_of(cells[cells.len() - 1]) == after[j]);
            }
        }
    }
    lemma_u16_pigeonhole(first_seen(cells));
}

/// A sequence of distinct 16-bit numbers has at most 65536 elements.
proof fn lemma_u16_pigeonhole(s: Seq<u16>)
    requires
        s.no_duplicates(),
    ensures
        s.len() <= 65536,
{
    let t = s.map_values(|x: u16| x as int);
    assert(t.no_duplicates());
    t.unique_seq_to_set();
    let range = vstd::set_lib::set_int_range(0, 65536);
    vstd::set_lib::lemma_int_range(0, 65536);
    assert(t.to_set().subset_of(range)) by {
        assert forall|x: int| t.to_set().contains(x) implies range.contains(x) by {
            let i = choose|i: int| 0 <= i < t.len() && t[i] == x;
            assert(t[i] == s[i] as int);
        }
    }
    vstd::set_lib::lemma_len_subset(t.to_set(), range);
}

/// The smallest width that can index `k` distinct ids.
pub fn pow2_index_bits(k: usize) -> (bits: u8)
    ensures
        bits == width_for(k as nat),
        is_width(bits as nat),
{
    if k <= 2 {
        1
    } else if k <= 4 {
        2
    } else if k <= 16 {
        4
    } else if k <= 256 {
        8
    } else {
        16
    }
}

/// Encode a brick's `cells`. The inverse is [`decode_paletted_cell`].
pub fn encode_paletted(cells: &[u32]) -> (pb: PalettedBrick)
    requires
        cells@.len() * 16 + 31 <= usize::MAX,
    ensures
        pb.palette@ == first_seen(cells@),
        pb.index_bits == cells_width(cells@),
        is_packing(pb.indices@, cells_width(cells@), locals(cells@)),
        pb.indices@ == index_stream(cells@),
{
    let n: usize = cells.len();
    let mut palette: Vec<u16> = Vec::new();
    let mut id_to_idx: FxHashMap<u16, u32> = fx_new();
    let mut idxs: Vec<u32> = Vec::new();
    let mut i: usize = 0;
    assert(cells@.take(0) =~= Seq::empty());
    while i < n
        invariant
            n == cells@.len(),
            i <= n,
            palette@ == first_seen(cells@.take(i as int)),
            palette@.len() <= 65536,
            forall|id: u16| #[trigger]
                id_to_idx@.dom().contains(id) <==> palette@.contains(id),
            forall|id: u16| #[trigger]
                id_to_idx@.dom().contains(id) ==> id_to_idx@[id] < palette@.len()
                    && palette@[id_to_idx@[id] as int] == id,
            idxs@.len() == i,
            forall|k: int|
                0 <= k < i ==> (#[trigger] idxs@[k]) < palette@.len() && palette@[idxs@[k] as int]
                    == id_of(cells@[k]),
        decreases n - i,
    {
        let id: u16 = cells[i] as u16;
        let ghost before = palette@;
        assert(cells@.take(i + 1).drop_last() =~= cells@.take(i as int));
        assert(cells@.take(i + 1).last() == cells@[i as int]);
        let idx: u32 = match fx_get(&id_to_idx, id) {
            Some(j) => *j,
            None => {
                let j: u32 = palette.len() as u32;
                palette.push(id);
                fx_insert(&mut id_to_idx, id, j);
                j
            },
        };
        idxs.push(idx);
        proof {
            lemma_first_seen(cells@.take(i + 1));
            assert(palette@ =~= first_seen(cells@.take(i + 1)));
            assert forall|other: u16| palette@.contains(other) <==> (before.contains(other) || other
                == id) by {
                if before.contains(other) {
                    let j = choose|j: int| 0 <= j < before.len() && before[j] == other;
                    assert(palette@[j] == other);
                }
                if other == id {
                    assert(palette@[idx as int] == id);
                }
                if palette@.contains(other) && other != id {
                    let j = choose|j: int| 0 <= j < palette@.len() && palette@[j] == other;
                    assert(before[j] == other);
                }
            }
        }
        i = i + 1;
    }
    assert(cells@.take(n as int) =~= cells@);
    let index_bits: u8 = pow2_index_bits(palette.len());
    let bits: usize = index_bits as usize;
    let ghost width = bits as nat;
    proof {
        lemma_first_seen(cells@);
        lemma_masks();
        assert(n * bits <= n * 16) by (nonlinear_arith)
            requires
                bits <= 16,
        ;
        assert forall|k: int| 0 <= k < n implies idxs@[k] == locals(cells@)[k] by {
            let p = first_seen(cells@);
            let id = id_of(cells@[k]);
            assert(p[idxs@[k] as int] == id && p.contains(id));
            assert(p[p.index_of(id)] == id);
        }
        assert(idxs@ =~= locals(cells@));
    }
    let words: usize = (n * bits + 31) / 32;
    let mut indices: Vec<u32> = Vec::new();
    let mut w: usize = 0;
    while w < words
        invariant
            w <= words,
            indices@ == Seq::new(w as nat, |k: int| 0u32),
        decreases words - w,
    {
        indices.push(0);
        assert(indices@ =~= Seq::new((w + 1) as nat, |k: int| 0u32));
        w = w + 1;
    }
    let shift: u32 = index_bits as u32;
    assert(1u32 << shift >= 1) by (bit_vector)
        requires
            shift < 32,
    ;
    let mask: u32 = (1u32 << shift) - 1;
    proof {
        assert forall|k: int| 0 <= k && k * width < words * 32 implies #[trigger] field(
            indices@,
            width,
            k,
        ) == 0 by {
            lemma_field_pos(width, k);
            let s = ((k * width) % 32) as u32;
            let m = low_mask(width);
            assert((0u32 >> s) & m == 0) by (bit_vector);
        }
    }
    let mut i: usize = 0;
    while i < n
        invariant
            n == cells@.len(),
            i <= n,
            width == bits,
            bits == index_bits,
            is_width(width),
            mask == low_mask(width),
            n * bits + 31 <= usize::MAX,
            words == (n * bits + 31) / 32,
            indices@.len() == words,
            idxs@.len() == n,
            forall|k: int| 0 <= k < n ==> #[trigger] idxs@[k] <= mask,
            forall|k: int| 0 <= k < i ==> #[trigger] field(indices@, width, k) == idxs@[k],
            forall|k: int|
                i <= k && k * width < words * 32 ==> #[trigger] field(indices@, width, k) == 0,
        decreases n - i,
    {
        proof {
            assert(i * bits + bits <= n * bits) by (nonlinear_arith)
                requires
                    i + 1 <= n,
            ;
            lemma_field_pos(width, i as int);
        }
        let bit: usize = i * bits;
        let v: u32 = idxs[i];
        let ghost before = indices@;
        let at: usize = bit / 32;
        let s: u32 = (bit % 32) as u32;
        let old_word: u32 = indices[at];
        indices.set(at, old_word | ((v & mask) << s));
        proof {
            assert(field(before, width, i as int) == 0);
            assert forall|k: int| 0 <= k && k * width < words * 32 implies #[trigger] field(
                indices@,
                width,
                k,
            ) == (if k == i { v } else { field(before, width, k) }) by {
                lemma_field_pos(width, k);
                if (k * width) / 32 == at {
                    lemma_put(old_word, v, width, s, ((k * width) % 32) as u32);
                    if (k * width) % 32 == s {
                        lemma_field_apart(width, k, i as int);
                    }
                }
            }
            assert forall|k: int| 0 <= k < i + 1 implies #[trigger] field(indices@, width, k)
                == idxs@[k] by {
                assert(k * width + width <= n * width) by (nonlinear_arith)
                    requires
                        k + 1 <= n,
                ;
            }
        }
        i = i + 1;
    }
    proof {
        assert(is_packing(indices@, cells_width(cells@), locals(cells@)));
        lemma_packing_unique(
            indices@,
            index_stream(cells@),
            cells_width(cells@),
            locals(cells@),
        );
    }
    PalettedBrick { palette, index_bits, indices }
}

/// Decode cell `i`'s block id from a palette and an index stream: the field of the cell, looked up in
/// the palette.
pub fn decode_paletted_cell(palette: &[u16], index_bits: u8, indices: &[u32], i: usize) -> (id: u16)
    requires
        index_bits <= 32,
        i * index_bits <= usize::MAX,
        (i * index_bits) / 32 < indices@.len(),
        field(indices@, index_bits as nat, i as int) < palette@.len(),
    ensures
        id == palette@[field(indices@, index_bits as nat, i as int) as int],
{
    let bits: usize = index_bits as usize;
    let bit: usize = i * bits;
    let mask: u32 = if bits == 32 {
        u32::MAX
    } else {
        let b: u32 = index_bits as u32;
        assert(1u32 << b >= 1) by (bit_vector)
            requires
                b < 32,
        ;
        (1u32 << b) - 1
    };
    let idx: u32 = (indices[bit / 32] >> ((bit % 32) as u32)) & mask;
    palette[idx as usize]
}

/// The first `k` fields written into words that are otherwise zero.
proof fn lemma_partial_packing(bits: nat, fields: Seq<u32>, k: nat) -> (words: Seq<u32>)
    requires
        is_width(bits),
        k <= fields.len(),
        forall|i: int| 0 <= i < fields.len() ==> #[trigger] fields[i] <= low_mask(bits),
    ensures
        words.len() == words_for(fields.len(), bits),
        forall|i: int| 0 <= i < k ==> #[trigger] field(words, bits, i) == fields[i],
        forall|i: int|
            k <= i && i * bits < words.len() * 32 ==> #[trigger] field(words, bits, i) == 0,
    decreases k,
{
    let n = words_for(fields.len(), bits);
    if k == 0 {
        let zero = Seq::new(n, |j: int| 0u32);
        assert forall|i: int| 0 <= i && i * bits < n * 32 implies #[trigger] field(zero, bits, i) == 0 by {
            lemma_field_pos(bits, i);
            let s = ((i * bits) % 32) as u32;
            let m = low_mask(bits);
            assert((0u32 >> s) & m == 0) by (bit_vector);
        }
        zero
    } else {
        let before = lemma_partial_packing(bits, fields, (k - 1) as nat);
        let last = k - 1;
        let v = fields[last];
        lemma_field_pos(bits, last);
        assert(last * bits + bits <= fields.len() * bits) by (nonlinear_arith)
            requires
                last + 1 <= fields.len(),
        ;
        let at = (last * bits) / 32;
        let s = ((last * bits) % 32) as u32;
        let words = before.update(at, before[at] | ((v & low_mask(bits)) << s));
        assert(field(before, bits, last) == 0);
        assert forall|i: int| 0 <= i && i * bits < n * 32 implies #[trigger] field(words, bits, i)
            == (if i == last { v } else { field(before, bits, i) }) by {
            lemma_field_pos(bits, i);
            if (i * bits) / 32 == at {
                lemma_put(before[at], v, bits, s, ((i * bits) % 32) as u32);
                if (i * bits) % 32 == s {
                    lemma_field_apart(bits, i, last);
                }
            }
        }
        assert forall|i: int| 0 <= i < k implies #[trigger] field(words, bits, i) == fields[i] by {
            assert(i * bits + bits <= fields.len() * bits) by (nonlinear_arith)
                requires
                    i + 1 <= fields.len(),
            ;
        }
        words
    }
}

/// The index stream of a brick's cells is the packing of their palette indices.
pub proof fn lemma_index_stream(cells: Seq<u32>)
    ensures
        is_packing(index_stream(cells), cells_width(cells), locals(cells)),
        index_stream(cells).len() == words_for(cells.len(), cells_width(cells)),
{
    lemma_first_seen(cells);
    lemma_masks();
    let p = first_seen(cells);
    assert forall|i: int| 0 <= i < locals(cells).len() implies #[trigger] locals(cells)[i] <= low_mask(
        cells_width(cells),
    ) by {
        assert(p.contains(id_of(cells[i])));
        assert(p[p.index_of(id_of(cells[i]))] == id_of(cells[i]));
    }
    let w = lemma_partial_packing(cells_width(cells), locals(cells), locals(cells).len());
    assert(is_packing(w, cells_width(cells), locals(cells)));
}

/// Encoding and decoding are inverse: every cell's id reads back from the palette and the index stream
/// of its brick.
pub proof fn law_paletted_round_trip(cells: Seq<u32>, i: int)
    requires
        0 <= i < cells.len(),
    ensures
        field(index_stream(cells), cells_width(cells), i) < first_seen(cells).len(),
        first_seen(cells)[field(index_stream(cells), cells_width(cells), i) as int] == id_of(cells[i]),
{
    lemma_first_seen(cells);
    lemma_index_stream(cells);
    let p = first_seen(cells);
    assert(field(index_stream(cells), cells_width(cells), i) == locals(cells)[i]);
    assert(p.contains(id_of(cells[i])));
    assert(p[p.index_of(id_of(cells[i]))] == id_of(cells[i]));
}

/// A palette as it is stored: one block id per word.
pub open spec fn palette_words(cells: Seq<u32>) -> Seq<u32> {
    first_seen(cells).map_values(|id: u16| id as u32)
}

/// A palette as it is stored: one block id per word.
pub fn widen_palette(palette: &Vec<u16>) -> (r: Vec<u32>)
    ensures
        r@ == palette@.map_values(|id: u16| id as u32),
{
    let mut r: Vec<u32> = Vec::with_capacity(palette.len());
    let mut i: usize = 0;
    while i < palette.len()
        invariant
            i <= palette@.len(),
            r@.len() == i,
            forall|j: int| 0 <= j < i ==> r@[j] == palette@[j] as u32,
        decreases palette@.len() - i,
    {
        r.push(palette[i] as u32);
        i = i + 1;
    }
    assert(r@ =~= palette@.map_values(|id: u16| id as u32));
    r
}

/// Whether the words `w` stand in `buf` from `off` on.
pub open spec fn words_at(buf: Seq<u32>, off: int, w: Seq<u32>) -> bool {
    &&& 0 <= off
    &&& off + w.len() <= buf.len()
    &&& forall|j: int| 0 <= j < w.len() ==> #[trigger] buf[off + j] == w[j]
}

/// A brick's cells read back from buffers that hold its index stream and its palette.
pub proof fn law_cells_read_back(
    indices: Seq<u32>,
    off: int,
    palettes: Seq<u32>,
    base: int,
    cells: Seq<u32>,
    i: int,
)
    requires
        0 <= i < cells.len(),
        words_at(indices, off, index_stream(cells)),
        words_at(palettes, base, palette_words(cells)),
    ensures
        ({
            let bits = cells_width(cells);
            let word = off + (i * bits) / 32;
            let local = (indices[word] >> (((i * bits) % 32) as u32)) & low_mask(bits);
            &&& off <= word < indices.len()
            &&& base + local < palettes.len()
            &&& palettes[base + local] == id_of(cells[i])
        }),
{
    law_paletted_round_trip(cells, i);
    lemma_index_stream(cells);
    lemma_first_seen(cells);
    let bits = cells_width(cells);
    let w = (i * bits) / 32;
    assert(is_width(bits));
    lemma_field_pos(bits, i);
    assert(i * bits < cells.len() * bits) by (nonlinear_arith)
        requires
            0 <= i < cells.len(),
            bits > 0,
    ;
    assert(0 <= w < index_stream(cells).len());
    assert(indices[off + w] == index_stream(cells)[w]);
    let local = field(index_stream(cells), bits, i) as int;
    assert(palettes[base + local] == palette_words(cells)[local]);
}

/// The width of an index is the smallest of one, two, four, eight and sixteen bits that can tell the palette apart.
pub proof fn law_index_width(k: nat)
    ensures
        width_for(k) == 1 <==> k <= 2,
        width_for(k) == 2 <==> 2 < k <= 4,
        width_for(k) == 4 <==> 4 < k <= 16,
        width_for(k) == 8 <==> 16 < k <= 256,
        width_for(k) == 16 <==> 256 < k,
{
}

/// A cell's id is its low sixteen bits.
pub proof fn law_cell_id(cell: u32)
    ensures
        id_of(cell) == cell % 0x1_0000,
{
    assert(cell as u16 == cell % 0x1_0000) by (bit_vector);
}

/// A palette has each id of the cells once, in the order in which they first occur: where entry `j` first occurs, the
/// ids before are those of the entries before it.
pub proof fn law_palette_in_order_of_first_use(cells: Seq<u32>, j: int)
    requires
        0 <= j < first_seen(cells).len(),
    ensures
        first_seen(cells).no_duplicates(),
        exists|a: int|
            #![trigger cells[a]]
            0 <= a < cells.len() && id_of(cells[a]) == first_seen(cells)[j] && forall|b: int|
                0 <= b < a ==> first_seen(cells).take(j).contains(id_of(#[trigger] cells[b])),
    decreases cells.len(),
{
    lemma_first_seen(cells);
    let front = cells.drop_last();
    let before = first_seen(front);
    let all = first_seen(cells);
    if j < before.len() {
        law_palette_in_order_of_first_use(front, j);
        let a = choose|a: int|
            #![trigger front[a]]
            0 <= a < front.len() && id_of(front[a]) == before[j] && forall|b: int|
                0 <= b < a ==> before.take(j).contains(id_of(#[trigger] front[b]));
        assert(all.take(j) =~= before.take(j));
        assert(cells[a] == front[a]);
        assert forall|b: int| 0 <= b < a implies all.take(j).contains(id_of(#[trigger] cells[b])) by {
            assert(cells[b] == front[b]);
        }
    } else {
        let a = cells.len() - 1;
        assert(all.take(j) =~= before);
        lemma_first_seen(front);
        assert forall|b: int| 0 <= b < a implies all.take(j).contains(id_of(#[trigger] cells[b])) by {
            assert(cells[b] == front[b]);
        }
        assert(id_of(cells[a]) == all[j]);
    }
}

/// Index `i` of a stream is in the bits from `i` times the width on, the least first, word after word: no index lies
/// across two words.
pub proof fn law_index_bits(words: Seq<u32>, bits: nat, i: int, b: u32)
    requires
        is_width(bits),
        0 <= i,
        b < 32,
    ensures
        (i * bits) % 32 + bits <= 32,
        b < bits ==> (field(words, bits, i) >> b) & 1 == (words[(i * bits) / 32] >> (((i * bits) % 32 + b) as u32)) & 1,
        b >= bits ==> (field(words, bits, i) >> b) & 1 == 0,
{
    lemma_field_pos(bits, i);
    lemma_masks();
    let w = words[(i * bits) / 32];
    let t = ((i * bits) % 32) as u32;
    let m = low_mask(bits);
    let n = bits as u32;
    let u = (t + b) as u32;
    assert(n == 1 && m == 1 || n == 2 && m == 3 || n == 4 && m == 15 || n == 8 && m == 255 || n == 16 && m == 65535);
    assert((b < n ==> (((w >> t) & m) >> b) & 1 == (w >> u) & 1) && (b >= n ==> (((w >> t) & m) >> b) & 1 == 0)) by (bit_vector)
        requires
            n == 1 && m == 1 || n == 2 && m == 3 || n == 4 && m == 15 || n == 8 && m == 255 || n == 16 && m == 65535,
            t + n <= 32,
            b < 32,
            b < n ==> u == t + b,
    ;
}

/// A stream has as many words as its indices fill, the last perhaps in part.
pub proof fn law_stream_length(words: Seq<u32>, bits: nat, fields: Seq<u32>)
    requires
        is_packing(words, bits, fields),
    ensures
        fields.len() * bits <= 32 * words.len() < fields.len() * bits + 32,
{
}

/// A palette as it is stored has one id to a word, in order.
pub proof fn law_palette_words(cells: Seq<u32>, j: int)
    requires
        0 <= j < first_seen(cells).len(),
    ensures
        palette_words(cells).len() == first_seen(cells).len(),
        palette_words(cells)[j] == first_seen(cells)[j],
{
}

} // verus!
