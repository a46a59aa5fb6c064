//! Sorting of brick keys, of places by power and of places by id.
//!
//! A key is ordered by level, then z, then y, then x. Keys and places are sorted through 128-bit numbers
//! that order as they do.

use crate::brickmap::Key;
use vstd::prelude::*;

verus! {

/// `<[u128]>::sort_unstable`: the same numbers, each as often as before, in ascending order.
#[verifier::external_body]
fn sort_numbers(v: &mut Vec<u128>)
    ensures
        final(v)@.to_multiset() == old(v)@.to_multiset(),
        forall|i: int, j: int| 0 <= i < j < final(v)@.len() ==> final(v)@[i] <= final(v)@[j],
{
    v.sort_unstable();
}

/// Whether `a` is ordered before `b`: by level, then z, then y, then x.
pub open spec fn key_before(a: Key, b: Key) -> bool {
    if a.3 != b.3 {
        a.3 < b.3
    } else if a.2 != b.2 {
        a.2 < b.2
    } else if a.1 != b.1 {
        a.1 < b.1
    } else {
        a.0 < b.0
    }
}

/// Whether `s` is strictly ascending.
pub open spec fn keys_ascend(s: Seq<Key>) -> bool {
    forall|i: int, j: int| 0 <= i < j < s.len() ==> key_before(#[trigger] s[i], #[trigger] s[j])
}

/// The number that stands for a key.
spec fn code_of(k: Key) -> int {
    ((k.3 * 0x1_0000_0000 + (k.2 + 0x8000_0000)) * 0x1_0000_0000 + (k.1 + 0x8000_0000)) * 0x1_0000_0000
        + (k.0 + 0x8000_0000)
}

fn encode_key(k: Key) -> (c: u128)
    ensures
        c == code_of(k),
{
    let l: u128 = k.3 as u128;
    let z: u128 = (k.2 as i64 + 0x8000_0000) as u128;
    let y: u128 = (k.1 as i64 + 0x8000_0000) as u128;
    let x: u128 = (k.0 as i64 + 0x8000_0000) as u128;
    ((l * 0x1_0000_0000 + z) * 0x1_0000_0000 + y) * 0x1_0000_0000 + x
}

proof fn lemma_split(c: int, a: int, b: int)
    requires
        c == a * 0x1_0000_0000 + b,
        0 <= b < 0x1_0000_0000,
    ensures
        c / 0x1_0000_0000 == a,
        c % 0x1_0000_0000 == b,
{
}

fn decode_key(c: u128, Ghost(k): Ghost<Key>) -> (r: Key)
    requires
        c == code_of(k),
    ensures
        r == k,
{
    let ghost a1: int = (k.3 * 0x1_0000_0000 + (k.2 + 0x8000_0000)) * 0x1_0000_0000 + (k.1
        + 0x8000_0000);
    let ghost a2: int = k.3 * 0x1_0000_0000 + (k.2 + 0x8000_0000);
    proof {
        lemma_split(c as int, a1, k.0 + 0x8000_0000);
        lemma_split(a1, a2, k.1 + 0x8000_0000);
        lemma_split(a2, k.3 as int, k.2 + 0x8000_0000);
    }
    let x: u128 = c % 0x1_0000_0000;
    let c1: u128 = c / 0x1_0000_0000;
    let y: u128 = c1 % 0x1_0000_0000;
    let c2: u128 = c1 / 0x1_0000_0000;
    let z: u128 = c2 % 0x1_0000_0000;
    let l: u128 = c2 / 0x1_0000_0000;
    (
        (x as i64 - 0x8000_0000) as i32,
        (y as i64 - 0x8000_0000) as i32,
        (z as i64 - 0x8000_0000) as i32,
        l as u32,
    )
}

proof fn lemma_code_order(a: Key, b: Key)
    ensures
        code_of(a) < code_of(b) <==> key_before(a, b),
        code_of(a) == code_of(b) <==> a == b,
{
}

/// The keys in ascending order.
pub fn sorted_keys(keys: Vec<Key>) -> (r: Vec<Key>)
    requires
        keys@.no_duplicates(),
    ensures
        keys_ascend(r@),
        r@.len() == keys@.len(),
        forall|k: Key| #[trigger] r@.contains(k) <==> keys@.contains(k),
{
    let mut codes: Vec<u128> = Vec::new();
    let mut i: usize = 0;
    while i < keys.len()
        invariant
            i <= keys@.len(),
            codes@.len() == i,
            forall|j: int| 0 <= j < i ==> #[trigger] codes@[j] == code_of(keys@[j]),
        decreases keys@.len() - i,
    {
        codes.push(encode_key(keys[i]));
        i = i + 1;
    }
    let ghost plain = codes@;
    proof {
        assert(plain.no_duplicates()) by {
            assert forall|a: int, b: int|
                0 <= a < plain.len() && 0 <= b < plain.len() && a != b implies plain[a] != plain[b] by {
                lemma_code_order(keys@[a], keys@[b]);
            }
        }
        plain.lemma_multiset_has_no_duplicates();
    }
    sort_numbers(&mut codes);
    proof {
        codes@.to_multiset_ensures();
        plain.to_multiset_ensures();
        codes@.lemma_multiset_has_no_duplicates_conv();
        assert forall|c: u128| codes@.contains(c) <==> plain.contains(c) by {
            assert(codes@.contains(c) <==> codes@.to_multiset().count(c) > 0);
            assert(plain.contains(c) <==> plain.to_multiset().count(c) > 0);
        }
    }
    let mut r: Vec<Key> = Vec::new();
    let mut i: usize = 0;
    while i < codes.len()
        invariant
            i <= codes@.len(),
            r@.len() == i,
            plain.len() == keys@.len(),
            forall|j: int| 0 <= j < plain.len() ==> #[trigger] plain[j] == code_of(keys@[j]),
            forall|c: u128| codes@.contains(c) <==> plain.contains(c),
            forall|j: int|
                0 <= j < i ==> code_of(#[trigger] r@[j]) == codes@[j] && keys@.contains(r@[j]),
        decreases codes@.len() - i,
    {
        let c: u128 = codes[i];
        let ghost at: int = 0;
        proof {
            assert(codes@.contains(c));
            assert(plain.contains(c));
            at = choose|j: int| 0 <= j < plain.len() && plain[j] == c;
        }
        let k: Key = decode_key(c, Ghost(keys@[at]));
        r.push(k);
        i = i + 1;
    }
    proof {
        assert forall|a: int, b: int| 0 <= a < b < r@.len() implies key_before(
            #[trigger] r@[a],
            #[trigger] r@[b],
        ) by {
            assert(codes@[a] <= codes@[b]);
            assert(codes@[a] != codes@[b]);
            lemma_code_order(r@[a], r@[b]);
        }
        assert forall|k: Key| #[trigger] r@.contains(k) <==> keys@.contains(k) by {
            if r@.contains(k) {
                let j = choose|j: int| 0 <= j < r@.len() && r@[j] == k;
                assert(keys@.contains(r@[j]));
            }
            if keys@.contains(k) {
                let j = choose|j: int| 0 <= j < keys@.len() && keys@[j] == k;
                assert(plain[j] == code_of(k));
                assert(plain.contains(plain[j]));
                assert(codes@.contains(plain[j]));
                let a = choose|a: int| 0 <= a < codes@.len() && codes@[a] == plain[j];
                assert(code_of(r@[a]) == codes@[a]);
                lemma_code_order(r@[a], k);
                assert(r@[a] == k);
            }
        }
    }
    r
}

/// The number that stands for place `i` with power `p`: greater power first, then lesser place.
spec fn rank_code(p: u32, i: int) -> int {
    (0xFFFF_FFFF - p) * 0x1_0000_0000_0000_0000 + i
}

/// Whether place `a` is ranked before place `b`: it has more power, or as much and comes first.
pub open spec fn ranked_before(power: Seq<u32>, a: usize, b: usize) -> bool {
    power[a as int] > power[b as int] || power[a as int] == power[b as int] && a < b
}

/// The places of a list of powers, the greatest power first, and equal powers in their order.
pub fn brightest_first(power: &[u32]) -> (r: Vec<usize>)
    ensures
        r@.len() == power@.len(),
        r@.no_duplicates(),
        forall|i: int| 0 <= i < r@.len() ==> (#[trigger] r@[i]) < power@.len(),
        forall|i: int, j: int|
            0 <= i < j < r@.len() ==> ranked_before(power@, #[trigger] r@[i], #[trigger] r@[j]),
{
    let mut codes: Vec<u128> = Vec::new();
    let mut i: usize = 0;
    while i < power.len()
        invariant
            i <= power@.len(),
            codes@.len() == i,
            forall|j: int| 0 <= j < i ==> #[trigger] codes@[j] == rank_code(power@[j], j),
        decreases power@.len() - i,
    {
        let c: u128 = (0xFFFF_FFFFu32 - power[i]) as u128 * 0x1_0000_0000_0000_0000u128 + i as u128;
        codes.push(c);
        i = i + 1;
    }
    let ghost plain = codes@;
    sort_numbers(&mut codes);
    proof {
        assert(power.len() == power@.len());
        assert(plain.no_duplicates()) by {
            assert forall|a: int, b: int|
                0 <= a < plain.len() && 0 <= b < plain.len() && a != b implies plain[a] != plain[b] by {
                assert(plain[a] == rank_code(power@[a], a) && plain[b] == rank_code(power@[b], b));
            }
        }
        plain.lemma_multiset_has_no_duplicates();
        codes@.to_multiset_ensures();
        plain.to_multiset_ensures();
        codes@.lemma_multiset_has_no_duplicates_conv();
        assert forall|c: u128| #[trigger] codes@.contains(c) <==> plain.contains(c) by {
            assert(codes@.contains(c) <==> codes@.to_multiset().count(c) > 0);
            assert(plain.contains(c) <==> plain.to_multiset().count(c) > 0);
        }
    }
    let mut r: Vec<usize> = Vec::new();
    let mut i: usize = 0;
    while i < codes.len()
        invariant
            i <= codes@.len(),
            r@.len() == i,
            codes@.len() == plain.len(),
            plain.len() == power@.len(),
            power@.len() <= usize::MAX,
            forall|j: int| 0 <= j < plain.len() ==> #[trigger] plain[j] == rank_code(power@[j], j),
            forall|c: u128| #[trigger] codes@.contains(c) <==> plain.contains(c),
            forall|j: int|
                0 <= j < i ==> (#[trigger] r@[j]) < power@.len() && codes@[j] == rank_code(
                    power@[r@[j] as int],
                    r@[j] as int,
                ),
        decreases codes@.len() - i,
    {
        let c: u128 = codes[i];
        proof {
            assert(codes@.contains(codes@[i as int]));
            assert(plain.contains(c));
            let at = choose|j: int| 0 <= j < plain.len() && plain[j] == c;
            assert(c == rank_code(power@[at], at));
            let q = 0xFFFF_FFFF - power@[at];
            assert(c as int % 0x1_0000_0000_0000_0000 == at);
        }
        let place: usize = (c % 0x1_0000_0000_0000_0000u128) as usize;
        r.push(place);
        i = i + 1;
    }
    proof {
        assert forall|a: int, b: int| 0 <= a < b < r@.len() implies ranked_before(
            power@,
            #[trigger] r@[a],
            #[trigger] r@[b],
        ) by {
            assert(codes@[a] <= codes@[b]);
            assert(codes@[a] != codes@[b]);
        }
        assert forall|a: int, b: int| 0 <= a < r@.len() && 0 <= b < r@.len() && a != b implies r@[a]
            != r@[b] by {
            assert(codes@[a] != codes@[b]);
        }
    }
    r
}

/// The number that stands for place `i` with id `p`: lesser id first, then lesser place.
spec fn id_code(p: u64, i: int) -> int {
    p * 0x1_0000_0000_0000_0000 + i
}

/// Whether place `a` comes before place `b`: it has the lesser id, or the same and comes first.
pub open spec fn id_before(ids: Seq<u64>, a: usize, b: usize) -> bool {
    ids[a as int] < ids[b as int] || ids[a as int] == ids[b as int] && a < b
}

/// The places of a list of ids, the least id first, and equal ids in their order.
pub fn least_first(ids: &[u64]) -> (r: Vec<usize>)
    ensures
        r@.len() == ids@.len(),
        r@.no_duplicates(),
        forall|i: int| 0 <= i < r@.len() ==> (#[trigger] r@[i]) < ids@.len(),
        forall|i: int, j: int|
            0 <= i < j < r@.len() ==> id_before(ids@, #[trigger] r@[i], #[trigger] r@[j]),
{
    let mut codes: Vec<u128> = Vec::new();
    let mut i: usize = 0;
    while i < ids.len()
        invariant
            i <= ids@.len(),
            codes@.len() == i,
            forall|j: int| 0 <= j < i ==> #[trigger] codes@[j] == id_code(ids@[j], j),
        decreases ids@.len() - i,
    {
        let c: u128 = ids[i] as u128 * 0x1_0000_0000_0000_0000u128 + i as u128;
        codes.push(c);
        i = i + 1;
    }
    let ghost plain = codes@;
    sort_numbers(&mut codes);
    proof {
        assert(ids.len() == ids@.len());
        assert(plain.no_duplicates()) by {
            assert forall|a: int, b: int|
                0 <= a < plain.len() && 0 <= b < plain.len() && a != b implies plain[a] != plain[b] by {
                assert(plain[a] == id_code(ids@[a], a) && plain[b] == id_code(ids@[b], b));
            }
        }
        plain.lemma_multiset_has_no_duplicates();
        codes@.to_multiset_ensures();
        plain.to_multiset_ensures();
        codes@.lemma_multiset_has_no_duplicates_conv();
        assert forall|c: u128| #[trigger] codes@.contains(c) <==> plain.contains(c) by {
            assert(codes@.contains(c) <==> codes@.to_multiset().count(c) > 0);
            assert(plain.contains(c) <==> plain.to_multiset().count(c) > 0);
        }
    }
    let mut r: Vec<usize> = Vec::new();
    let mut i: usize = 0;
    while i < codes.len()
        invariant
            i <= codes@.len(),
            r@.len() == i,
            codes@.len() == plain.len(),
            plain.len() == ids@.len(),
            ids@.len() <= usize::MAX,
            forall|j: int| 0 <= j < plain.len() ==> #[trigger] plain[j] == id_code(ids@[j], j),
            forall|c: u128| #[trigger] codes@.contains(c) <==> plain.contains(c),
            forall|j: int|
                0 <= j < i ==> (#[trigger] r@[j]) < ids@.len() && codes@[j] == id_code(
                    ids@[r@[j] as int],
                    r@[j] as int,
                ),
        decreases codes@.len() - i,
    {
        let c: u128 = codes[i];
        proof {
            assert(codes@.contains(codes@[i as int]));
            assert(plain.contains(c));
            let at = choose|j: int| 0 <= j < plain.len() && plain[j] == c;
            assert(c == id_code(ids@[at], at));
            assert(c as int % 0x1_0000_0000_0000_0000 == at);
        }
        let place: usize = (c % 0x1_0000_0000_0000_0000u128) as usize;
        r.push(place);
        i = i + 1;
    }
    proof {
        assert forall|a: int, b: int| 0 <= a < b < r@.len() implies id_before(
            ids@,
            #[trigger] r@[a],
            #[trigger] r@[b],
        ) by {
            assert(codes@[a] <= codes@[b]);
            assert(codes@[a] != codes@[b]);
        }
        assert forall|a: int, b: int| 0 <= a < r@.len() && 0 <= b < r@.len() && a != b implies r@[a]
            != r@[b] by {
            assert(codes@[a] != codes@[b]);
        }
    }
    r
}

/// Keys are ordered by level, then by z, then by y, then by x; of two different ones just one comes first.
pub proof fn law_key_order(a: Key, b: Key, c: Key)
    ensures
        a.3 < b.3 ==> key_before(a, b),
        a.3 == b.3 && a.2 < b.2 ==> key_before(a, b),
        a.3 == b.3 && a.2 == b.2 && a.1 < b.1 ==> key_before(a, b),
        a.3 == b.3 && a.2 == b.2 && a.1 == b.1 && a.0 < b.0 ==> key_before(a, b),
        a != b ==> key_before(a, b) != key_before(b, a),
        !key_before(a, a),
        key_before(a, b) && key_before(b, c) ==> key_before(a, c),
{
}

/// Of two lights the brighter comes first, and of equally bright ones that which was found first.
pub proof fn law_rank_order(power: Seq<u32>, a: usize, b: usize)
    ensures
        power[a as int] > power[b as int] ==> ranked_before(power, a, b) && !ranked_before(power, b, a),
        power[a as int] == power[b as int] ==> (ranked_before(power, a, b) <==> a < b),
{
}

/// Of two ids the less comes first, and of equal ones that which is listed first.
pub proof fn law_id_order(ids: Seq<u64>, a: usize, b: usize)
    ensures
        ids[a as int] < ids[b as int] ==> id_before(ids, a, b) && !id_before(ids, b, a),
        ids[a as int] == ids[b as int] ==> (id_before(ids, a, b) <==> a < b),
{
}

} // verus!
