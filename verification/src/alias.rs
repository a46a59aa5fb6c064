//! The alias table: how a light is picked in constant time, in proportion to its power.
//!
//! The table is built with two stacks, of the entries that have less than an average share and of those that have at
//! least as much. The shares are bit patterns of floats; how they are compared, taken apart and narrowed is given.

use crate::palette::ONE_BITS;
use vstd::prelude::*;

verus! {

/// One entry of the alias table: with probability `prob`, the bit pattern of a float, light `i` itself is taken, and
/// otherwise light `alias`.
#[derive(Clone, Copy, Debug, PartialEq, Eq, Structural)]
pub struct GpuAliasEntry {
    pub prob: u32,
    pub alias: u32,
}

/// The state of the building: the shares that are left, the two stacks, and the entries so far.
#[verifier::ext_equal]
pub struct Stacks {
    pub scaled: Seq<u64>,
    pub small: Seq<int>,
    pub large: Seq<int>,
    pub entries: Seq<GpuAliasEntry>,
}

/// The entry that always takes its own light.
pub open spec fn own_entry(i: int) -> GpuAliasEntry {
    GpuAliasEntry { prob: ONE_BITS, alias: i as u32 }
}

/// Whether the stacks hold, in order, the first `n` places: those below the average on one, the others on the other.
pub open spec fn is_split<S: Fn(u64) -> bool>(
    below: S,
    scaled: Seq<u64>,
    n: nat,
    small: Seq<int>,
    large: Seq<int>,
) -> bool
    decreases n,
{
    if n == 0 {
        small.len() == 0 && large.len() == 0
    } else {
        let k: int = n - 1;
        ||| call_ensures(below, (scaled[k],), true) && small.len() > 0 && small.last() == k && is_split(
            below,
            scaled,
            (n - 1) as nat,
            small.drop_last(),
            large,
        )
        ||| call_ensures(below, (scaled[k],), false) && large.len() > 0 && large.last() == k && is_split(
            below,
            scaled,
            (n - 1) as nat,
            small,
            large.drop_last(),
        )
    }
}

/// Whether `a` is the state at the start.
pub open spec fn is_start<S: Fn(u64) -> bool>(below: S, scaled: Seq<u64>, a: Stacks) -> bool {
    &&& a.scaled == scaled
    &&& is_split(below, scaled, scaled.len(), a.small, a.large)
    &&& a.entries == Seq::new(scaled.len(), |i: int| own_entry(i))
}

/// Whether one pairing leads from `a` to `b`: the topmost small entry gets its share for probability and the topmost
/// large entry for alias; what is left of the large entry's share decides which stack it goes back to.
pub open spec fn is_pairing<S: Fn(u64) -> bool, R: Fn(u64, u64) -> u64, N: Fn(u64) -> u32>(
    below: S,
    rest: R,
    narrow: N,
    a: Stacks,
    b: Stacks,
) -> bool {
    let s = a.small.last();
    let l = a.large.last();
    &&& a.small.len() > 0
    &&& a.large.len() > 0
    &&& call_ensures(rest, (a.scaled[l], a.scaled[s]), b.scaled[l])
    &&& b.scaled == a.scaled.update(l, b.scaled[l])
    &&& call_ensures(narrow, (a.scaled[s],), b.entries[s].prob)
    &&& b.entries == a.entries.update(s, GpuAliasEntry { prob: b.entries[s].prob, alias: l as u32 })
    &&& ({
        ||| call_ensures(below, (b.scaled[l],), true) && b.small == a.small.drop_last().push(l) && b.large
            == a.large.drop_last()
        ||| call_ensures(below, (b.scaled[l],), false) && b.small == a.small.drop_last() && b.large == a.large
    })
}

/// Whether the entries are those of pairing until one stack is empty.
pub open spec fn is_alias_table<S: Fn(u64) -> bool, R: Fn(u64, u64) -> u64, N: Fn(u64) -> u32>(
    below: S,
    rest: R,
    narrow: N,
    scaled: Seq<u64>,
    entries: Seq<GpuAliasEntry>,
) -> bool {
    exists|trace: Seq<Stacks>| #[trigger] is_building(below, rest, narrow, scaled, trace) && (trace.last().small.len() == 0
        || trace.last().large.len() == 0) && trace.last().entries == entries
}

/// Whether a trace begins at the start and goes on by pairings.
pub open spec fn is_building<S: Fn(u64) -> bool, R: Fn(u64, u64) -> u64, N: Fn(u64) -> u32>(
    below: S,
    rest: R,
    narrow: N,
    scaled: Seq<u64>,
    trace: Seq<Stacks>,
) -> bool {
    &&& trace.len() > 0
    &&& is_start(below, scaled, trace[0])
    &&& forall|k: int|
        0 < k < trace.len() ==> is_pairing(below, rest, narrow, trace[k - 1], #[trigger] trace[k])
}

/// A list of places as mathematical integers.
spec fn ints(list: Seq<usize>) -> Seq<int> {
    list.map_values(|p: usize| p as int)
}

/// Build the alias table over shares whose average is one: `below` says whether a share is below one, `rest` what is
/// left of a large share after it has filled up a small one, and `narrow` makes a probability of a share.
pub fn build_alias_table<S: Fn(u64) -> bool, R: Fn(u64, u64) -> u64, N: Fn(u64) -> u32>(
    shares: &Vec<u64>,
    below: &S,
    rest: &R,
    narrow: &N,
) -> (out: Vec<GpuAliasEntry>)
    requires
        shares@.len() <= 0x1_0000_0000,
        forall|x: u64| call_requires(*below, (x,)),
        forall|x: u64, y: u64| call_requires(*rest, (x, y)),
        forall|x: u64| call_requires(*narrow, (x,)),
    ensures
        out@.len() == shares@.len(),
        is_alias_table(*below, *rest, *narrow, shares@, out@),
        forall|i: int| 0 <= i < out@.len() ==> (#[trigger] out@[i]).alias < shares@.len(),
{
    let n: usize = shares.len();
    let mut scaled: Vec<u64> = Vec::new();
    let mut entries: Vec<GpuAliasEntry> = Vec::new();
    let mut small: Vec<usize> = Vec::new();
    let mut large: Vec<usize> = Vec::new();
    let mut i: usize = 0;
    assert(ints(small@) =~= Seq::empty());
    assert(ints(large@) =~= Seq::empty());
    while i < n
        invariant
            i <= n,
            n == shares@.len(),
            n <= 0x1_0000_0000,
            forall|x: u64| call_requires(*below, (x,)),
            scaled@ == shares@.take(i as int),
            entries@ == Seq::new(i as nat, |k: int| own_entry(k)),
            is_split(*below, shares@, i as nat, ints(small@), ints(large@)),
            small@.len() + large@.len() == i,
            forall|k: int| 0 <= k < small@.len() ==> (#[trigger] small@[k]) < n,
            forall|k: int| 0 <= k < large@.len() ==> (#[trigger] large@[k]) < n,
        decreases n - i,
    {
        let p: u64 = shares[i];
        scaled.push(p);
        entries.push(GpuAliasEntry { prob: ONE_BITS, alias: i as u32 });
        let ghost small0 = ints(small@);
        let ghost large0 = ints(large@);
        if below(p) {
            small.push(i);
            assert(ints(small@).drop_last() =~= small0);
        } else {
            large.push(i);
            assert(ints(large@).drop_last() =~= large0);
        }
        assert(scaled@ =~= shares@.take(i + 1));
        assert(entries@ =~= Seq::new((i + 1) as nat, |k: int| own_entry(k)));
        i = i + 1;
    }
    assert(scaled@ =~= shares@);
    let ghost mut trace: Seq<Stacks> = seq![
        Stacks { scaled: scaled@, small: ints(small@), large: ints(large@), entries: entries@ },
    ];
    while small.len() > 0 && large.len() > 0
        invariant
            n == shares@.len(),
            n <= 0x1_0000_0000,
            forall|x: u64| call_requires(*below, (x,)),
            forall|x: u64, y: u64| call_requires(*rest, (x, y)),
            forall|x: u64| call_requires(*narrow, (x,)),
            scaled@.len() == n,
            entries@.len() == n,
            forall|k: int| 0 <= k < small@.len() ==> (#[trigger] small@[k]) < n,
            forall|k: int| 0 <= k < large@.len() ==> (#[trigger] large@[k]) < n,
            forall|k: int| 0 <= k < n ==> (#[trigger] entries@[k]).alias < n,
            is_building(*below, *rest, *narrow, shares@, trace),
            (trace.last() == Stacks {
                scaled: scaled@,
                small: ints(small@),
                large: ints(large@),
                entries: entries@,
            }),
        decreases small@.len() + large@.len(),
    {
        let ghost a = trace.last();
        let s: usize = small[small.len() - 1];
        let l: usize = large[large.len() - 1];
        assert(a.small.last() == s && a.large.last() == l);
        let _s = small.pop();
        assert(ints(small@) =~= a.small.drop_last());
        let prob: u32 = narrow(scaled[s]);
        entries.set(s, GpuAliasEntry { prob, alias: l as u32 });
        let left: u64 = rest(scaled[l], scaled[s]);
        scaled.set(l, left);
        if below(left) {
            let _l = large.pop();
            small.push(l);
            assert(ints(large@) =~= a.large.drop_last());
            assert(ints(small@) =~= a.small.drop_last().push(l as int));
        }
        proof {
            let b = Stacks { scaled: scaled@, small: ints(small@), large: ints(large@), entries: entries@ };
            assert(b.scaled =~= a.scaled.update(l as int, left));
            assert(b.entries =~= a.entries.update(s as int, GpuAliasEntry { prob, alias: l as u32 }));
            assert(is_pairing(*below, *rest, *narrow, a, b));
            let before = trace;
            trace = trace.push(b);
            assert forall|k: int| 0 < k < trace.len() implies is_pairing(
                *below,
                *rest,
                *narrow,
                trace[k - 1],
                #[trigger] trace[k],
            ) by {
                if k < before.len() {
                    assert(before[k] == trace[k]);
                }
            }
        }
    }
    entries
}

/// What light `i` gets from entry `j`, another light's, when `one` is a whole draw and `chance` the value of a
/// probability.
pub open spec fn gift(entries: Seq<GpuAliasEntry>, one: int, chance: spec_fn(u32) -> int, i: int, j: int) -> int {
    if j != i && entries[j].alias == i {
        one - chance(entries[j].prob)
    } else {
        0
    }
}

/// What light `i` gets from the first `n` entries of other lights.
pub open spec fn gifts(entries: Seq<GpuAliasEntry>, one: int, chance: spec_fn(u32) -> int, i: int, n: nat) -> int
    decreases n,
{
    if n == 0 {
        0
    } else {
        gifts(entries, one, chance, i, (n - 1) as nat) + gift(entries, one, chance, i, n - 1)
    }
}

/// How often light `i` is drawn, when each entry is looked up once: by its own entry and by those of others.
pub open spec fn drawn(entries: Seq<GpuAliasEntry>, one: int, chance: spec_fn(u32) -> int, i: int) -> int {
    chance(entries[i].prob) + gifts(entries, one, chance, i, entries.len())
}

/// The sum of the shares at the places of a list.
pub open spec fn total(scaled: Seq<u64>, worth: spec_fn(u64) -> int, list: Seq<int>) -> int
    decreases list.len(),
{
    if list.len() == 0 {
        0
    } else {
        total(scaled, worth, list.drop_last()) + worth(scaled[list.last()])
    }
}

/// Whether the arithmetic that is given is exact: shares and probabilities are worth integers, of which `one` is
/// an average share and a sure draw.
pub open spec fn is_exact<S: Fn(u64) -> bool, R: Fn(u64, u64) -> u64, N: Fn(u64) -> u32>(
    below: S,
    rest: R,
    narrow: N,
    one: int,
    worth: spec_fn(u64) -> int,
    chance: spec_fn(u32) -> int,
) -> bool {
    &&& forall|x: u64, b: bool| #[trigger] call_ensures(below, (x,), b) ==> b == (worth(x) < one)
    &&& forall|x: u64, y: u64, r: u64| #[trigger]
        call_ensures(rest, (x, y), r) ==> worth(r) == worth(x) + worth(y) - one
    &&& forall|x: u64, p: u32| #[trigger] call_ensures(narrow, (x,), p) ==> chance(p) == worth(x)
    &&& chance(ONE_BITS) == one
}

/// Whether the two stacks hold distinct places of `n`.
spec fn are_stacks(a: Stacks, n: int) -> bool {
    &&& a.small.no_duplicates()
    &&& a.large.no_duplicates()
    &&& forall|k: int| 0 <= k < a.small.len() ==> 0 <= #[trigger] a.small[k] < n
    &&& forall|k: int| 0 <= k < a.large.len() ==> 0 <= #[trigger] a.large[k] < n
    &&& forall|k: int, m: int|
        0 <= k < a.small.len() && 0 <= m < a.large.len() ==> #[trigger] a.small[k] != #[trigger] a.large[m]
}

/// What holds of light `i` while the table is built: as long as it is on a stack its entry is its own, and what is
/// left of its share and what it was given make up its share; afterwards its entry and what it was given do.
spec fn settled(
    shares: Seq<u64>,
    one: int,
    worth: spec_fn(u64) -> int,
    chance: spec_fn(u32) -> int,
    a: Stacks,
    i: int,
) -> bool {
    let got = gifts(a.entries, one, chance, i, a.entries.len());
    if a.small.contains(i) || a.large.contains(i) {
        a.entries[i] == own_entry(i) && worth(a.scaled[i]) + got == worth(shares[i])
    } else {
        chance(a.entries[i].prob) + got == worth(shares[i])
    }
}

/// What holds of the state while the table is built.
spec fn in_balance(
    shares: Seq<u64>,
    one: int,
    worth: spec_fn(u64) -> int,
    chance: spec_fn(u32) -> int,
    a: Stacks,
) -> bool {
    let n = shares.len() as int;
    &&& a.scaled.len() == n
    &&& a.entries.len() == n
    &&& are_stacks(a, n)
    &&& forall|k: int| 0 <= k < a.small.len() ==> worth(a.scaled[#[trigger] a.small[k]]) < one
    &&& forall|k: int| 0 <= k < a.large.len() ==> worth(a.scaled[#[trigger] a.large[k]]) >= one
    &&& total(a.scaled, worth, a.small) + total(a.scaled, worth, a.large) == one * (a.small.len() + a.large.len())
    &&& forall|i: int| 0 <= i < n ==> #[trigger] settled(shares, one, worth, chance, a, i)
}

/// A sum is the same where the shares at its places are.
proof fn lemma_total_frame(a: Seq<u64>, b: Seq<u64>, worth: spec_fn(u64) -> int, list: Seq<int>)
    requires
        forall|k: int| 0 <= k < list.len() ==> a[#[trigger] list[k]] == b[list[k]],
    ensures
        total(a, worth, list) == total(b, worth, list),
    decreases list.len(),
{
    if list.len() > 0 {
        let last = list.len() - 1;
        assert(a[list[last]] == b[list[last]]);
        assert forall|k: int| 0 <= k < list.drop_last().len() implies a[#[trigger] list.drop_last()[k]]
            == b[list.drop_last()[k]] by {
            assert(list.drop_last()[k] == list[k]);
        }
        lemma_total_frame(a, b, worth, list.drop_last());
    }
}

/// An entry that was its own becomes one that gives to `l`.
proof fn lemma_gifts_update(
    entries: Seq<GpuAliasEntry>,
    one: int,
    chance: spec_fn(u32) -> int,
    s: int,
    l: int,
    prob: u32,
    i: int,
    n: nat,
)
    requires
        n <= entries.len() <= 0x1_0000_0000,
        0 <= s < entries.len(),
        0 <= l < entries.len(),
        0 <= i < entries.len(),
        s != l,
        entries[s] == own_entry(s),
    ensures
        ({
            let after = entries.update(s, GpuAliasEntry { prob, alias: l as u32 });
            gifts(after, one, chance, i, n) == gifts(entries, one, chance, i, n) + (if i == l && s < n {
                one - chance(prob)
            } else {
                0
            })
        }),
    decreases n,
{
    if n > 0 {
        let after = entries.update(s, GpuAliasEntry { prob, alias: l as u32 });
        lemma_gifts_update(entries, one, chance, s, l, prob, i, (n - 1) as nat);
        assert((l as u32) as int == l && (s as u32) as int == s);
        if n - 1 != s {
            assert(after[n - 1] == entries[n - 1]);
        }
    }
}

/// At the start nothing is given.
proof fn lemma_gifts_none(entries: Seq<GpuAliasEntry>, one: int, chance: spec_fn(u32) -> int, i: int, n: nat)
    requires
        n <= entries.len() <= 0x1_0000_0000,
        forall|k: int| 0 <= k < entries.len() ==> #[trigger] entries[k] == own_entry(k),
    ensures
        gifts(entries, one, chance, i, n) == 0,
    decreases n,
{
    if n > 0 {
        lemma_gifts_none(entries, one, chance, i, (n - 1) as nat);
        assert(entries[n - 1] == own_entry(n - 1));
        assert(((n - 1) as u32) as int == n - 1);
    }
}

/// The stacks at the start hold each place once, on the stack that its share says.
proof fn lemma_split<S: Fn(u64) -> bool>(
    below: S,
    one: int,
    worth: spec_fn(u64) -> int,
    scaled: Seq<u64>,
    n: nat,
    small: Seq<int>,
    large: Seq<int>,
)
    requires
        is_split(below, scaled, n, small, large),
        n <= scaled.len(),
        forall|x: u64, b: bool| #[trigger] call_ensures(below, (x,), b) ==> b == (worth(x) < one),
    ensures
        small.no_duplicates(),
        large.no_duplicates(),
        small.len() + large.len() == n,
        forall|k: int| 0 <= k < small.len() ==> 0 <= #[trigger] small[k] < n && worth(scaled[small[k]]) < one,
        forall|k: int| 0 <= k < large.len() ==> 0 <= #[trigger] large[k] < n && worth(scaled[large[k]]) >= one,
        forall|i: int| 0 <= i < n ==> (#[trigger] small.contains(i)) || large.contains(i),
        total(scaled, worth, small) + total(scaled, worth, large) == total(
            scaled,
            worth,
            Seq::new(n, |k: int| k),
        ),
    decreases n,
{
    let all = Seq::new(n, |k: int| k);
    if n > 0 {
        let k = n - 1;
        assert(all.drop_last() =~= Seq::new((n - 1) as nat, |k: int| k));
        assert(all.last() == k);
        if call_ensures(below, (scaled[k],), true) && small.len() > 0 && small.last() == k && is_split(
            below,
            scaled,
            (n - 1) as nat,
            small.drop_last(),
            large,
        ) {
            let rest = small.drop_last();
            lemma_split(below, one, worth, scaled, (n - 1) as nat, rest, large);
            assert forall|j: int| 0 <= j < small.len() implies 0 <= #[trigger] small[j] < n && worth(scaled[small[j]])
                < one by {
                if j < rest.len() {
                    assert(rest[j] == small[j]);
                }
            }
            assert forall|a: int, b: int| 0 <= a < b < small.len() implies small[a] != small[b] by {
                assert(rest[a] == small[a]);
                if b < rest.len() {
                    assert(rest[b] == small[b]);
                }
            }
            assert forall|i: int| 0 <= i < n implies (#[trigger] small.contains(i)) || large.contains(i) by {
                if i == k {
                    assert(small[small.len() - 1] == i);
                } else if rest.contains(i) {
                    let j = choose|j: int| 0 <= j < rest.len() && rest[j] == i;
                    assert(small[j] == i);
                }
            }
        } else {
            let rest = large.drop_last();
            lemma_split(below, one, worth, scaled, (n - 1) as nat, small, rest);
            assert forall|j: int| 0 <= j < large.len() implies 0 <= #[trigger] large[j] < n && worth(scaled[large[j]])
                >= one by {
                if j < rest.len() {
                    assert(rest[j] == large[j]);
                }
            }
            assert forall|a: int, b: int| 0 <= a < b < large.len() implies large[a] != large[b] by {
                assert(rest[a] == large[a]);
                if b < rest.len() {
                    assert(rest[b] == large[b]);
                }
            }
            assert forall|i: int| 0 <= i < n implies (#[trigger] small.contains(i)) || large.contains(i) by {
                if i == k {
                    assert(large[large.len() - 1] == i);
                } else if rest.contains(i) {
                    let j = choose|j: int| 0 <= j < rest.len() && rest[j] == i;
                    assert(large[j] == i);
                }
            }
        }
    }
}

/// The start is in balance.
proof fn lemma_start_balanced<S: Fn(u64) -> bool>(
    below: S,
    shares: Seq<u64>,
    one: int,
    worth: spec_fn(u64) -> int,
    chance: spec_fn(u32) -> int,
    a: Stacks,
)
    requires
        shares.len() <= 0x1_0000_0000,
        is_start(below, shares, a),
        forall|x: u64, b: bool| #[trigger] call_ensures(below, (x,), b) ==> b == (worth(x) < one),
        total(shares, worth, Seq::new(shares.len(), |k: int| k)) == one * shares.len(),
    ensures
        in_balance(shares, one, worth, chance, a),
{
    lemma_split(below, one, worth, shares, shares.len(), a.small, a.large);
    assert forall|k: int, m: int| 0 <= k < a.small.len() && 0 <= m < a.large.len() implies #[trigger] a.small[k]
        != #[trigger] a.large[m] by {
        assert(worth(shares[a.small[k]]) < one);
        assert(worth(shares[a.large[m]]) >= one);
    }
    assert forall|i: int| 0 <= i < shares.len() implies #[trigger] settled(shares, one, worth, chance, a, i) by {
        lemma_gifts_none(a.entries, one, chance, i, a.entries.len());
        assert(a.small.contains(i) || a.large.contains(i));
        assert(a.entries[i] == own_entry(i));
    }
}

/// A pairing keeps the balance.
proof fn lemma_pairing_balanced<S: Fn(u64) -> bool, R: Fn(u64, u64) -> u64, N: Fn(u64) -> u32>(
    below: S,
    rest: R,
    narrow: N,
    shares: Seq<u64>,
    one: int,
    worth: spec_fn(u64) -> int,
    chance: spec_fn(u32) -> int,
    a: Stacks,
    b: Stacks,
)
    requires
        shares.len() <= 0x1_0000_0000,
        is_exact(below, rest, narrow, one, worth, chance),
        in_balance(shares, one, worth, chance, a),
        is_pairing(below, rest, narrow, a, b),
    ensures
        in_balance(shares, one, worth, chance, b),
{
    let n = shares.len() as int;
    let ns = a.small.len() - 1;
    let nl = a.large.len() - 1;
    let s = a.small[ns];
    let l = a.large[nl];
    let prob = b.entries[s].prob;
    let fewer = a.small.drop_last();
    let kept = a.large.drop_last();
    assert(a.small.last() == s && a.large.last() == l);
    assert(s != l && 0 <= s < n && 0 <= l < n);
    assert(settled(shares, one, worth, chance, a, s) && settled(shares, one, worth, chance, a, l));
    assert(a.small.contains(s) && a.large.contains(l));
    assert(b.entries.len() == n && b.scaled.len() == n);
    assert(worth(b.scaled[l]) == worth(a.scaled[l]) + worth(a.scaled[s]) - one);
    assert(chance(prob) == worth(a.scaled[s]));
    // The other places keep their shares.
    assert forall|k: int| 0 <= k < fewer.len() implies a.scaled[#[trigger] fewer[k]] == b.scaled[fewer[k]] by {
        assert(fewer[k] == a.small[k]);
        assert(a.small[k] != a.large[nl]);
    }
    assert forall|k: int| 0 <= k < kept.len() implies a.scaled[#[trigger] kept[k]] == b.scaled[kept[k]] by {
        assert(kept[k] == a.large[k]);
        assert(a.large[k] != a.large[nl]);
    }
    lemma_total_frame(a.scaled, b.scaled, worth, fewer);
    lemma_total_frame(a.scaled, b.scaled, worth, kept);
    assert(one * (a.small.len() + a.large.len()) - one == one * (a.small.len() + a.large.len() - 1))
        by (nonlinear_arith);
    if b.large.len() == a.large.len() {
        lemma_kept_large(a, b, n);
    } else {
        lemma_moved_large(a, b, n);
    }
    assert forall|k: int| 0 <= k < b.small.len() implies worth(b.scaled[#[trigger] b.small[k]]) < one by {
        if k < fewer.len() {
            assert(b.small[k] == fewer[k] && fewer[k] == a.small[k]);
            assert(worth(a.scaled[a.small[k]]) < one);
        } else {
            assert(b.small[k] == l);
        }
    }
    assert forall|k: int| 0 <= k < b.large.len() implies worth(b.scaled[#[trigger] b.large[k]]) >= one by {
        if k < kept.len() {
            assert(b.large[k] == kept[k] && kept[k] == a.large[k]);
            assert(worth(a.scaled[a.large[k]]) >= one);
        } else {
            assert(b.large[k] == l);
        }
    }
    if b.large.len() == a.large.len() {
        assert(b.large =~= kept.push(l));
        assert(b.large.drop_last() =~= kept);
        assert(b.small =~= fewer);
    } else {
        assert(b.small.drop_last() =~= fewer);
        assert(b.large =~= kept);
    }
    assert(b.small.len() + b.large.len() == a.small.len() + a.large.len() - 1);
    assert(total(b.scaled, worth, b.small) + total(b.scaled, worth, b.large) == one * (b.small.len() + b.large.len()));
    assert forall|i: int| 0 <= i < n implies #[trigger] settled(shares, one, worth, chance, b, i) by {
        assert(settled(shares, one, worth, chance, a, i));
        lemma_gifts_update(a.entries, one, chance, s, l, prob, i, n as nat);
        lemma_on_stack(a, b, n, i);
        if i != s && i != l {
            assert(b.entries[i] == a.entries[i]);
            assert(b.scaled[i] == a.scaled[i]);
        }
    }
}

/// After a pairing that leaves the large entry where it is, the stacks are stacks.
proof fn lemma_kept_large(a: Stacks, b: Stacks, n: int)
    requires
        are_stacks(a, n),
        a.small.len() > 0,
        b.small == a.small.drop_last(),
        b.large == a.large,
    ensures
        are_stacks(b, n),
{
    assert forall|k: int| 0 <= k < b.small.len() implies 0 <= #[trigger] b.small[k] < n by {
        assert(b.small[k] == a.small[k]);
    }
    assert forall|k: int, m: int| 0 <= k < b.small.len() && 0 <= m < b.large.len() implies #[trigger] b.small[k]
        != #[trigger] b.large[m] by {
        assert(b.small[k] == a.small[k] && b.large[m] == a.large[m]);
    }
}

/// After a pairing that moves the large entry to the small ones, the stacks are stacks.
proof fn lemma_moved_large(a: Stacks, b: Stacks, n: int)
    requires
        are_stacks(a, n),
        a.small.len() > 0,
        a.large.len() > 0,
        b.small == a.small.drop_last().push(a.large.last()),
        b.large == a.large.drop_last(),
    ensures
        are_stacks(b, n),
{
    let l = a.large.len() - 1;
    assert forall|k: int| 0 <= k < b.small.len() implies 0 <= #[trigger] b.small[k] < n by {
        if k < b.small.len() - 1 {
            assert(b.small[k] == a.small[k]);
        } else {
            assert(b.small[k] == a.large[l]);
        }
    }
    assert forall|k: int| 0 <= k < b.large.len() implies 0 <= #[trigger] b.large[k] < n by {
        assert(b.large[k] == a.large[k]);
    }
    assert forall|k: int, m: int| 0 <= k < m < b.small.len() implies b.small[k] != b.small[m] by {
        assert(b.small[k] == a.small[k]);
        if m < b.small.len() - 1 {
            assert(b.small[m] == a.small[m]);
        } else {
            assert(b.small[m] == a.large[l]);
        }
    }
    assert forall|k: int, m: int| 0 <= k < b.small.len() && 0 <= m < b.large.len() implies #[trigger] b.small[k]
        != #[trigger] b.large[m] by {
        assert(b.large[m] == a.large[m]);
        if k < b.small.len() - 1 {
            assert(b.small[k] == a.small[k]);
        } else {
            assert(b.small[k] == a.large[l]);
        }
    }
}

/// A pairing takes the small entry off the stacks and no other.
proof fn lemma_on_stack(a: Stacks, b: Stacks, n: int, i: int)
    requires
        are_stacks(a, n),
        a.small.len() > 0,
        a.large.len() > 0,
        ({
            ||| b.small == a.small.drop_last().push(a.large.last()) && b.large == a.large.drop_last()
            ||| b.small == a.small.drop_last() && b.large == a.large
        }),
    ensures
        (b.small.contains(i) || b.large.contains(i)) <==> (a.small.contains(i) || a.large.contains(i)) && i
            != a.small.last(),
{
    let ns = a.small.len() - 1;
    let nl = a.large.len() - 1;
    if b.small.contains(i) {
        let k = choose|k: int| 0 <= k < b.small.len() && b.small[k] == i;
        if k < ns {
            assert(a.small[k] == i && a.small[k] != a.small[ns]);
        } else {
            assert(a.large[nl] == i && a.small[ns] != a.large[nl]);
        }
    }
    if b.large.contains(i) {
        let k = choose|k: int| 0 <= k < b.large.len() && b.large[k] == i;
        assert(a.large[k] == i && a.small[ns] != a.large[k]);
    }
    if i != a.small.last() {
        if a.small.contains(i) {
            let k = choose|k: int| 0 <= k < a.small.len() && a.small[k] == i;
            assert(b.small[k] == i);
        }
        if a.large.contains(i) {
            let k = choose|k: int| 0 <= k < a.large.len() && a.large[k] == i;
            if b.large.len() == a.large.len() {
                assert(b.large[k] == i);
            } else if k < nl {
                assert(b.large[k] == i);
            } else {
                assert(b.small[ns] == i);
            }
        }
    }
}

/// Every state of the building is in balance.
proof fn lemma_balanced<S: Fn(u64) -> bool, R: Fn(u64, u64) -> u64, N: Fn(u64) -> u32>(
    below: S,
    rest: R,
    narrow: N,
    shares: Seq<u64>,
    one: int,
    worth: spec_fn(u64) -> int,
    chance: spec_fn(u32) -> int,
    trace: Seq<Stacks>,
    k: int,
)
    requires
        shares.len() <= 0x1_0000_0000,
        is_exact(below, rest, narrow, one, worth, chance),
        is_building(below, rest, narrow, shares, trace),
        total(shares, worth, Seq::new(shares.len(), |k: int| k)) == one * shares.len(),
        0 <= k < trace.len(),
    ensures
        in_balance(shares, one, worth, chance, trace[k]),
    decreases k,
{
    if k == 0 {
        lemma_start_balanced(below, shares, one, worth, chance, trace[0]);
    } else {
        lemma_balanced(below, rest, narrow, shares, one, worth, chance, trace, k - 1);
        assert(is_pairing(below, rest, narrow, trace[k - 1], trace[k]));
        lemma_pairing_balanced(below, rest, narrow, shares, one, worth, chance, trace[k - 1], trace[k]);
    }
}

/// Shares of at least `one` each that sum up to `one` each are all `one`.
proof fn lemma_all_one(scaled: Seq<u64>, worth: spec_fn(u64) -> int, list: Seq<int>, one: int, k: int)
    requires
        forall|m: int| 0 <= m < list.len() ==> worth(scaled[#[trigger] list[m]]) >= one,
        total(scaled, worth, list) <= one * list.len(),
        0 <= k < list.len(),
    ensures
        worth(scaled[list[k]]) == one,
    decreases list.len(),
{
    let last = list.len() - 1;
    let init = list.drop_last();
    assert(worth(scaled[list[last]]) >= one);
    assert forall|m: int| 0 <= m < init.len() implies worth(scaled[#[trigger] init[m]]) >= one by {
        assert(init[m] == list[m]);
    }
    lemma_total_bound(scaled, worth, init, one, true);
    assert(one * list.len() == one * init.len() + one) by (nonlinear_arith)
        requires
            list.len() == init.len() + 1,
    ;
    if k < last {
        lemma_all_one(scaled, worth, init, one, k);
        assert(init[k] == list[k]);
    }
}

/// Shares on one side of `one` sum up to that side of `one` each.
proof fn lemma_total_bound(scaled: Seq<u64>, worth: spec_fn(u64) -> int, list: Seq<int>, one: int, above: bool)
    requires
        forall|m: int|
            0 <= m < list.len() ==> if above {
                worth(scaled[#[trigger] list[m]]) >= one
            } else {
                worth(scaled[list[m]]) < one
            },
    ensures
        above ==> total(scaled, worth, list) >= one * list.len(),
        !above ==> total(scaled, worth, list) <= one * list.len() - list.len(),
    decreases list.len(),
{
    if list.len() > 0 {
        let init = list.drop_last();
        let last = list.len() - 1;
        assert(if above {
            worth(scaled[list[last]]) >= one
        } else {
            worth(scaled[list[last]]) < one
        });
        assert forall|m: int| 0 <= m < init.len() implies if above {
            worth(scaled[#[trigger] init[m]]) >= one
        } else {
            worth(scaled[init[m]]) < one
        } by {
            assert(init[m] == list[m]);
        }
        lemma_total_bound(scaled, worth, init, one, above);
        assert(one * list.len() == one * init.len() + one) by (nonlinear_arith)
            requires
                list.len() == init.len() + 1,
        ;
    } else {
        assert(one * 0 == 0);
    }
}

/// The table is exact: where the arithmetic is, and the shares average one, each light is drawn in just the
/// proportion of its share.
pub proof fn law_alias_table_is_exact<S: Fn(u64) -> bool, R: Fn(u64, u64) -> u64, N: Fn(u64) -> u32>(
    below: S,
    rest: R,
    narrow: N,
    shares: Seq<u64>,
    one: int,
    worth: spec_fn(u64) -> int,
    chance: spec_fn(u32) -> int,
    entries: Seq<GpuAliasEntry>,
    i: int,
)
    requires
        shares.len() <= 0x1_0000_0000,
        is_exact(below, rest, narrow, one, worth, chance),
        total(shares, worth, Seq::new(shares.len(), |k: int| k)) == one * shares.len(),
        is_alias_table(below, rest, narrow, shares, entries),
        0 <= i < shares.len(),
    ensures
        drawn(entries, one, chance, i) == worth(shares[i]),
{
    let trace = choose|trace: Seq<Stacks>| #[trigger] is_building(below, rest, narrow, shares, trace) && (
    trace.last().small.len() == 0 || trace.last().large.len() == 0) && trace.last().entries == entries;
    let a = trace.last();
    lemma_balanced(below, rest, narrow, shares, one, worth, chance, trace, trace.len() - 1);
    assert(settled(shares, one, worth, chance, a, i));
    if a.small.len() > 0 {
        lemma_total_bound(a.scaled, worth, a.small, one, false);
        assert(total(a.scaled, worth, a.large) == 0);
        assert(one * (a.small.len() + a.large.len()) == one * a.small.len());
    } else if a.large.contains(i) {
        let k = choose|k: int| 0 <= k < a.large.len() && a.large[k] == i;
        assert(total(a.scaled, worth, a.small) == 0);
        assert(one * (a.small.len() + a.large.len()) == one * a.large.len());
        lemma_all_one(a.scaled, worth, a.large, one, k);
    }
}

} // verus!
