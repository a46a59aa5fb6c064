//! Slot and block allocators of the incremental packer.
//!
//! A [`SlotPool`] hands out slots below a fixed capacity, a [`BlockPool`] hands out word blocks of a few
//! fixed sizes from one growing buffer. In both, what is given back waits in a quarantine until the next
//! update begins, so that a frame still reading the old bytes never sees them overwritten.

use crate::brickmap::Key;
use vstd::prelude::*;

verus! {

/// Who has a slot or a block.
pub enum Owner {
    /// Nobody: it can be handed out.
    Free,
    /// Nobody, but it is not handed out before the next update.
    Quarantined,
    /// The brick with this key.
    Held(Key),
}

/// A size-class slab arena over one buffer: a bump pointer plus a list of free blocks per class. A
/// request takes the smallest class that fits.
pub struct SlabArena {
    /// Block sizes in words, ascending.
    classes: Vec<u32>,
    /// Per class, the offsets of freed blocks, last freed first to be reused.
    free: Vec<Vec<u32>>,
    /// Words handed out at least once.
    high_water: u32,
    /// The capacity that the buffer was last sized to.
    gpu_cap: u32,
    /// A capacity that the buffer has at least.
    reserved_floor: u32,
    /// An allocation since the last commit went past `gpu_cap`.
    grew: bool,
    /// The class of the block at each offset.
    blocks: Ghost<Map<u32, int>>,
}

/// Whether `c` is the smallest class of at least `words` words.
pub open spec fn is_class(classes: Seq<u32>, words: int, c: int) -> bool {
    &&& 0 <= c < classes.len()
    &&& classes[c] >= words
    &&& forall|i: int| 0 <= i < c ==> #[trigger] classes[i] < words
}

/// The smallest class of at least `words` words.
pub open spec fn class_for(classes: Seq<u32>, words: int) -> int {
    choose|c: int| is_class(classes, words, c)
}

/// Whether the classes are sizes in ascending order.
pub open spec fn classes_ok(classes: Seq<u32>) -> bool {
    &&& classes.len() > 0
    &&& forall|i: int| 0 <= i < classes.len() ==> #[trigger] classes[i] > 0
    &&& forall|i: int, j: int| 0 <= i < j < classes.len() ==> classes[i] < classes[j]
}

/// The capacity to give a buffer: room to double, or to grow by 8192 words, at least one block of the
/// largest class, and at least the reserved floor.
pub open spec fn capacity_for(high_water: int, last_class: int, floor: int) -> int {
    let a = if high_water * 2 >= high_water + 8192 { high_water * 2 } else { high_water + 8192 };
    let b = if a >= last_class { a } else { last_class };
    if b >= floor { b } else { floor }
}

proof fn lemma_class_unique(classes: Seq<u32>, words: int, c: int)
    requires
        is_class(classes, words, c),
    ensures
        class_for(classes, words) == c,
{
    let d = class_for(classes, words);
    assert(is_class(classes, words, d));
    if d < c {
        assert(classes[d] < words);
    } else if c < d {
        assert(classes[c] < words);
    }
}

/// A request that some class fits has a smallest class that fits it.
pub proof fn lemma_class_exists(classes: Seq<u32>, words: int, c: int)
    requires
        0 <= c < classes.len(),
        classes[c] >= words,
    ensures
        is_class(classes, words, class_for(classes, words)),
    decreases c,
{
    if forall|i: int| 0 <= i < c ==> #[trigger] classes[i] < words {
        assert(is_class(classes, words, c));
    } else {
        let i = choose|i: int| 0 <= i < c && #[trigger] classes[i] >= words;
        lemma_class_exists(classes, words, i);
    }
}

/// The least capacity after room for so many blocks of so many words was asked for.
pub open spec fn floor_with(floor: int, blocks: int, mean_words: int) -> int {
    let want = if blocks * mean_words <= u32::MAX {
        blocks * mean_words
    } else {
        u32::MAX as int
    };
    if floor >= want {
        floor
    } else {
        want
    }
}

impl SlabArena {
    /// The class sizes.
    pub closed spec fn sizes(&self) -> Seq<u32> {
        self.classes@
    }

    /// Words handed out at least once.
    pub closed spec fn used(&self) -> int {
        self.high_water as int
    }

    /// The capacity that the buffer was last sized to.
    pub closed spec fn cap(&self) -> int {
        self.gpu_cap as int
    }

    /// Whether an allocation since the last commit went past the buffer's capacity.
    pub closed spec fn has_grown(&self) -> bool {
        self.grew
    }

    /// The reserved capacity.
    pub closed spec fn floor(&self) -> int {
        self.reserved_floor as int
    }

    /// The class of the block at each offset that was ever handed out.
    pub closed spec fn layout(&self) -> Map<u32, int> {
        self.blocks@
    }

    /// The free blocks of a class.
    pub closed spec fn free_of(&self, c: int) -> Seq<u32> {
        self.free@[c]@
    }

    /// Whether the block at `o` was handed out and not given back since.
    pub open spec fn is_live(&self, o: u32) -> bool {
        &&& self.layout().dom().contains(o)
        &&& forall|c: int| 0 <= c < self.sizes().len() ==> !(#[trigger] self.free_of(c)).contains(o)
    }

    /// The word after the block at `o`.
    pub open spec fn end_of(&self, o: u32) -> int {
        o + self.sizes()[self.layout()[o]]
    }

    /// Blocks lie inside the used words and do not overlap; a free list holds distinct blocks of its
    /// class; without a growth mark the used words fit the buffer.
    pub closed spec fn wf(&self) -> bool {
        &&& classes_ok(self.classes@)
        &&& self.free@.len() == self.classes@.len()
        &&& (!self.grew ==> self.high_water <= self.gpu_cap)
        &&& forall|o: u32| #[trigger]
            self.blocks@.dom().contains(o) ==> 0 <= self.blocks@[o] < self.classes@.len() && o
                + self.classes@[self.blocks@[o]] <= self.high_water
        &&& forall|o: u32, p: u32|
            #![trigger self.blocks@.dom().contains(o), self.blocks@.dom().contains(p)]
            self.blocks@.dom().contains(o) && self.blocks@.dom().contains(p) && o < p ==> o
                + self.classes@[self.blocks@[o]] <= p
        &&& forall|c: int, i: int|
            0 <= c < self.classes@.len() && 0 <= i < self.free@[c]@.len()
                ==> self.blocks@.dom().contains(#[trigger] self.free@[c]@[i])
                && self.blocks@[self.free@[c]@[i]] == c
        &&& forall|c: int|
            0 <= c < self.classes@.len() ==> (#[trigger] self.free@[c])@.no_duplicates()
    }

    /// What well-formedness says of the layout.
    pub proof fn lemma_layout(&self)
        requires
            self.wf(),
        ensures
            classes_ok(self.sizes()),
            0 <= self.used() <= u32::MAX,
            !self.has_grown() ==> self.used() <= self.cap(),
            forall|o: u32| #[trigger]
                self.layout().dom().contains(o) ==> 0 <= self.layout()[o] < self.sizes().len() && o
                    + self.sizes()[self.layout()[o]] <= self.used(),
            forall|o: u32, p: u32|
                #![trigger self.layout().dom().contains(o), self.layout().dom().contains(p)]
                self.layout().dom().contains(o) && self.layout().dom().contains(p) && o < p ==> o
                    + self.sizes()[self.layout()[o]] <= p,
            forall|c: int, i: int|
                0 <= c < self.sizes().len() && 0 <= i < self.free_of(c).len()
                    ==> self.layout().dom().contains(#[trigger] self.free_of(c)[i])
                    && self.layout()[self.free_of(c)[i]] == c,
            forall|c: int|
                0 <= c < self.sizes().len() ==> (#[trigger] self.free_of(c)).no_duplicates(),
    {
    }

    /// An arena without blocks.
    pub fn new(classes: Vec<u32>) -> (a: SlabArena)
        requires
            classes_ok(classes@),
        ensures
            a.wf(),
            a.sizes() == classes@,
            a.used() == 0,
            a.cap() == 0,
            a.floor() == 0,
            !a.has_grown(),
            a.layout() == Map::<u32, int>::empty(),
            forall|c: int| 0 <= c < classes@.len() ==> #[trigger] a.free_of(c) == Seq::<u32>::empty(),
    {
        let n: usize = classes.len();
        let mut free: Vec<Vec<u32>> = Vec::new();
        let mut i: usize = 0;
        while i < n
            invariant
                i <= n,
                free@.len() == i,
                forall|c: int| 0 <= c < i ==> (#[trigger] free@[c])@ == Seq::<u32>::empty(),
            decreases n - i,
        {
            free.push(Vec::new());
            i = i + 1;
        }
        SlabArena {
            classes,
            free,
            high_water: 0,
            gpu_cap: 0,
            reserved_floor: 0,
            grew: false,
            blocks: Ghost(Map::empty()),
        }
    }

    /// Raise the reserved capacity to `blocks * mean_words_per_block` words, cut off at the largest
    /// 32-bit number.
    pub fn reserve(&mut self, blocks: u32, mean_words_per_block: u32)
        requires
            old(self).wf(),
        ensures
            final(self).wf(),
            final(self).floor() == floor_with(old(self).floor(), blocks as int, mean_words_per_block as int),
            final(self).sizes() == old(self).sizes(),
            final(self).used() == old(self).used(),
            final(self).cap() == old(self).cap(),
            final(self).has_grown() == old(self).has_grown(),
            final(self).layout() == old(self).layout(),
            forall|c: int|
                0 <= c < old(self).sizes().len() ==> #[trigger] final(self).free_of(c) == old(
                    self,
                ).free_of(c),
    {
        let want: u32 = match blocks.checked_mul(mean_words_per_block) {
            Some(v) => v,
            None => u32::MAX,
        };
        if self.reserved_floor < want {
            self.reserved_floor = want;
        }
    }

    /// The smallest class of at least `words` words.
    pub fn class_of(&self, words: u32) -> (c: usize)
        requires
            self.wf(),
            is_class(self.sizes(), words as int, class_for(self.sizes(), words as int)),
        ensures
            c == class_for(self.sizes(), words as int),
            is_class(self.sizes(), words as int, c as int),
    {
        let mut c: usize = 0;
        let n: usize = self.classes.len();
        let ghost want = class_for(self.sizes(), words as int);
        while self.classes[c] < words
            invariant
                self.wf(),
                is_class(self.classes@, words as int, want),
                0 <= c <= want < n,
                n == self.classes@.len(),
                forall|i: int| 0 <= i < c ==> #[trigger] self.classes@[i] < words,
            decreases want - c,
        {
            c = c + 1;
        }
        proof {
            lemma_class_unique(self.sizes(), words as int, c as int);
        }
        c
    }

    /// Allocate a block of at least `words` words: the last freed block of its class, or else a new one
    /// past the used words.
    pub fn claim_block(&mut self, words: u32) -> (off: u32)
        requires
            old(self).wf(),
            is_class(old(self).sizes(), words as int, class_for(old(self).sizes(), words as int)),
            old(self).free_of(class_for(old(self).sizes(), words as int)).len() == 0 ==> old(self).used() + old(
                self,
            ).sizes()[class_for(old(self).sizes(), words as int)] <= u32::MAX,
        ensures
            final(self).wf(),
            final(self).sizes() == old(self).sizes(),
            final(self).cap() == old(self).cap(),
            final(self).floor() == old(self).floor(),
            ({
                let c = class_for(old(self).sizes(), words as int);
                let list = old(self).free_of(c);
                if list.len() > 0 {
                    &&& off == list.last()
                    &&& final(self).free_of(c) == list.drop_last()
                    &&& final(self).used() == old(self).used()
                    &&& final(self).has_grown() == old(self).has_grown()
                    &&& final(self).layout() == old(self).layout()
                } else {
                    &&& off == old(self).used()
                    &&& final(self).free_of(c) == list
                    &&& final(self).used() == old(self).used() + old(self).sizes()[c]
                    &&& final(self).has_grown() == (old(self).has_grown() || final(self).used()
                        > old(self).cap())
                    &&& final(self).layout() == old(self).layout().insert(off, c)
                    &&& !old(self).layout().dom().contains(off)
                }
            }),
            forall|c: int|
                0 <= c < old(self).sizes().len() && c != class_for(
                    old(self).sizes(),
                    words as int,
                ) ==> #[trigger] final(self).free_of(c) == old(self).free_of(c),
            final(self).layout().dom().contains(off),
            final(self).layout()[off] == class_for(old(self).sizes(), words as int),
            final(self).is_live(off),
            forall|o: u32| #[trigger]
                old(self).is_live(o) ==> final(self).is_live(o) && (final(self).end_of(o) <= off
                    || final(self).end_of(off) <= o),
    {
        let cls: usize = self.class_of(words);
        let n: usize = self.free[cls].len();
        if n > 0 {
            let ghost list = self.free@[cls as int]@;
            let off: u32 = self.free[cls][n - 1];
            let mut rest: Vec<u32> = Vec::new();
            std::mem::swap(&mut rest, &mut self.free[cls]);
            let _last = rest.pop();
            self.free.set(cls, rest);
            assert(self.free@[cls as int]@ =~= list.drop_last());
            assert forall|c: int| 0 <= c < self.classes@.len() implies (#[trigger]
            self.free@[c])@.no_duplicates() by {
                if c != cls {
                    assert(self.free@[c] == old(self).free@[c]);
                }
            }
            proof {
                lemma_claimed(old(self), self, off, cls as int);
            }
            return off;
        }
        let off: u32 = self.high_water;
        self.high_water = self.high_water + self.classes[cls];
        if self.high_water > self.gpu_cap {
            self.grew = true;
        }
        proof {
            assert(!self.blocks@.dom().contains(off));
        }
        self.blocks = Ghost(self.blocks@.insert(off, cls as int));
        proof {
            lemma_claimed(old(self), self, off, cls as int);
        }
        off
    }

    /// Return a block, allocated for `words` words, to the free list of its class.
    pub fn free_block(&mut self, off: u32, words: u32)
        requires
            old(self).wf(),
            is_class(old(self).sizes(), words as int, class_for(old(self).sizes(), words as int)),
            old(self).layout().dom().contains(off),
            old(self).layout()[off] == class_for(old(self).sizes(), words as int),
            !old(self).free_of(class_for(old(self).sizes(), words as int)).contains(off),
        ensures
            final(self).wf(),
            final(self).sizes() == old(self).sizes(),
            final(self).used() == old(self).used(),
            final(self).cap() == old(self).cap(),
            final(self).floor() == old(self).floor(),
            final(self).has_grown() == old(self).has_grown(),
            final(self).layout() == old(self).layout(),
            final(self).free_of(class_for(old(self).sizes(), words as int)) == old(self).free_of(
                class_for(old(self).sizes(), words as int),
            ).push(off),
            !final(self).is_live(off),
            forall|o: u32| o != off && old(self).is_live(o) ==> #[trigger] final(self).is_live(o),
            forall|c: int|
                0 <= c < old(self).sizes().len() && c != class_for(
                    old(self).sizes(),
                    words as int,
                ) ==> #[trigger] final(self).free_of(c) == old(self).free_of(c),
    {
        let cls: usize = self.class_of(words);
        let mut list: Vec<u32> = Vec::new();
        std::mem::swap(&mut list, &mut self.free[cls]);
        let ghost before = list@;
        list.push(off);
        self.free.set(cls, list);
        assert forall|c: int| 0 <= c < self.classes@.len() implies (#[trigger]
        self.free@[c])@.no_duplicates() by {
            if c != cls {
                assert(self.free@[c] == old(self).free@[c]);
            } else {
                assert(self.free@[c]@ == before.push(off));
            }
        }
        assert forall|c: int, i: int|
            0 <= c < self.classes@.len() && 0 <= i < self.free@[c]@.len() implies self.blocks@.dom().contains(
            #[trigger] self.free@[c]@[i]) && self.blocks@[self.free@[c]@[i]] == c by {
            if c != cls {
                assert(self.free@[c] == old(self).free@[c]);
            } else if i < before.len() {
                assert(self.free@[c]@[i] == old(self).free@[c]@[i]);
            }
        }
        proof {
            assert(self.free_of(cls as int)[before.len() as int] == off);
            assert(self.free_of(cls as int).contains(off));
            assert forall|o: u32| o != off && old(self).is_live(o) implies #[trigger] self.is_live(o) by {
                assert forall|c: int| 0 <= c < self.sizes().len() implies !(#[trigger] self.free_of(c)).contains(o) by {
                    assert(!old(self).free_of(c).contains(o));
                    if self.free_of(c).contains(o) {
                        let i = choose|i: int| 0 <= i < self.free_of(c).len() && self.free_of(c)[i] == o;
                        assert(old(self).free_of(c)[i] == o);
                    }
                }
            }
        }
    }

    /// The capacity to size the buffer to at the next snapshot.
    pub fn capacity_u32(&self) -> (n: usize)
        requires
            self.wf(),
            self.used() < 0x8000_0000,
        ensures
            n == capacity_for(
                self.used(),
                self.sizes()[self.sizes().len() - 1] as int,
                self.floor(),
            ),
            n <= u32::MAX,
            n >= self.used(),
    {
        let hw: usize = self.high_water as usize;
        let mut n: usize = hw * 2;
        if n < hw + 8192 {
            n = hw + 8192;
        }
        let last: usize = self.classes[self.classes.len() - 1] as usize;
        if n < last {
            n = last;
        }
        if n < self.reserved_floor as usize {
            n = self.reserved_floor as usize;
        }
        n
    }

    /// Record a buffer of [`capacity_u32`](Self::capacity_u32) words and clear the growth mark.
    pub fn commit(&mut self) -> (n: usize)
        requires
            old(self).wf(),
            old(self).used() < 0x8000_0000,
        ensures
            final(self).wf(),
            n == capacity_for(
                old(self).used(),
                old(self).sizes()[old(self).sizes().len() - 1] as int,
                old(self).floor(),
            ),
            final(self).cap() == n,
            !final(self).has_grown(),
            final(self).sizes() == old(self).sizes(),
            final(self).used() == old(self).used(),
            final(self).floor() == old(self).floor(),
            final(self).layout() == old(self).layout(),
            forall|c: int|
                0 <= c < old(self).sizes().len() ==> #[trigger] final(self).free_of(c) == old(
                    self,
                ).free_of(c),
    {
        let cap: usize = self.capacity_u32();
        self.gpu_cap = cap as u32;
        self.grew = false;
        cap
    }
}

/// A block that is handed out is live from then on, lies apart from all that were, and leaves them live.
proof fn lemma_claimed(a: &SlabArena, b: &SlabArena, off: u32, k: int)
    requires
        a.wf(),
        b.wf(),
        a.sizes() == b.sizes(),
        0 <= k < a.sizes().len(),
        b.layout().dom().contains(off),
        b.layout()[off] == k,
        forall|o: u32| #[trigger]
            a.layout().dom().contains(o) ==> b.layout().dom().contains(o) && b.layout()[o] == a.layout()[o],
        forall|c: int|
            0 <= c < a.sizes().len() && c != k ==> #[trigger] b.free_of(c) == a.free_of(c),
        a.free_of(k).len() > 0 ==> off == a.free_of(k).last() && b.free_of(k) == a.free_of(k).drop_last(),
        a.free_of(k).len() == 0 ==> !a.layout().dom().contains(off) && b.free_of(k) == a.free_of(k),
    ensures
        b.is_live(off),
        forall|o: u32| #[trigger]
            a.is_live(o) ==> b.is_live(o) && (b.end_of(o) <= off || b.end_of(off) <= o),
{
    a.lemma_layout();
    b.lemma_layout();
    let list = a.free_of(k);
    assert forall|c: int| 0 <= c < b.sizes().len() implies !(#[trigger] b.free_of(c)).contains(off) by {
        if b.free_of(c).contains(off) {
            let i = choose|i: int| 0 <= i < b.free_of(c).len() && b.free_of(c)[i] == off;
            assert(b.layout()[b.free_of(c)[i]] == c);
            assert(c == k);
            if list.len() > 0 {
                assert(list[i] == off && list[list.len() - 1] == off);
            }
        }
    }
    assert forall|o: u32| #[trigger] a.is_live(o) implies b.is_live(o) && (b.end_of(o) <= off || b.end_of(off) <= o) by {
        assert(!list.contains(o));
        if list.len() > 0 {
            assert(list.contains(list[list.len() - 1]));
        }
        assert forall|c: int| 0 <= c < b.sizes().len() implies !(#[trigger] b.free_of(c)).contains(o) by {
            if b.free_of(c).contains(o) {
                let i = choose|i: int| 0 <= i < b.free_of(c).len() && b.free_of(c)[i] == o;
                assert(a.free_of(c)[i] == o);
                assert(a.free_of(c).contains(o));
            }
        }
        assert(b.layout().dom().contains(o) && b.layout().dom().contains(off));
    }
}

/// What the slots of a pool are handed out by: how many there are, how many were ever handed out, and which are free
/// and which in quarantine.
#[verifier::ext_equal]
pub struct SlotPlan {
    pub cap: int,
    pub next: int,
    /// Free slots, last freed first to be reused.
    pub free: Seq<u32>,
    pub waiting: Seq<u32>,
}

/// The slot to claim, and the plan after it: the next one that was never handed out, or else the last one freed, or
/// none.
pub open spec fn claim_slot(p: SlotPlan) -> (SlotPlan, Option<u32>) {
    if p.next < p.cap {
        (SlotPlan { next: p.next + 1, ..p }, Some(p.next as u32))
    } else if p.free.len() > 0 {
        (SlotPlan { free: p.free.drop_last(), ..p }, Some(p.free.last()))
    } else {
        (p, None)
    }
}

/// The plan after a slot was given back.
pub open spec fn give_slot(p: SlotPlan, s: u32) -> SlotPlan {
    SlotPlan { waiting: p.waiting.push(s), ..p }
}

/// The plan after the quarantine was emptied.
pub open spec fn release_slots(p: SlotPlan) -> SlotPlan {
    SlotPlan { free: p.free + p.waiting, waiting: Seq::empty(), ..p }
}

/// Slots below a fixed capacity, each with an owner. A slot that was given back waits in quarantine
/// until the next release.
pub struct SlotPool {
    capacity: u32,
    /// Slots handed out at least once.
    high_water: u32,
    /// Free slots, last freed first to be reused.
    free: Vec<u32>,
    /// Slots given back since the last release.
    quarantine: Vec<u32>,
    /// The owner of each slot below `high_water`.
    owner: Ghost<Map<u32, Owner>>,
}

impl SlotPool {
    /// The number of slots.
    pub closed spec fn cap(&self) -> int {
        self.capacity as int
    }

    /// The owner of each slot that was ever handed out.
    pub closed spec fn owners(&self) -> Map<u32, Owner> {
        self.owner@
    }

    /// How many slots can be claimed before one is given back.
    pub closed spec fn ready(&self) -> nat {
        (self.capacity - self.high_water + self.free@.len()) as nat
    }

    /// The slots in quarantine.
    pub closed spec fn waiting(&self) -> Seq<u32> {
        self.quarantine@
    }

    /// What slots are handed out by.
    pub closed spec fn plan(&self) -> SlotPlan {
        SlotPlan {
            cap: self.capacity as int,
            next: self.high_water as int,
            free: self.free@,
            waiting: self.quarantine@,
        }
    }

    /// The free list and the quarantine hold distinct slots that nobody holds.
    pub closed spec fn wf(&self) -> bool {
        &&& self.high_water <= self.capacity
        &&& forall|s: u32| #[trigger] self.owner@.dom().contains(s) <==> s < self.high_water
        &&& forall|i: int|
            0 <= i < self.free@.len() ==> self.owner@.dom().contains(#[trigger] self.free@[i])
                && self.owner@[self.free@[i]] == Owner::Free
        &&& self.free@.no_duplicates()
        &&& forall|i: int|
            0 <= i < self.quarantine@.len() ==> self.owner@.dom().contains(
                #[trigger] self.quarantine@[i],
            ) && self.owner@[self.quarantine@[i]] == Owner::Quarantined
        &&& self.quarantine@.no_duplicates()
    }

    /// What well-formedness says of the owners.
    pub proof fn lemma_owners(&self)
        requires
            self.wf(),
        ensures
            forall|s: u32| #[trigger] self.owners().dom().contains(s) ==> s < self.cap(),
            forall|i: int|
                0 <= i < self.waiting().len() ==> self.owners().dom().contains(
                    #[trigger] self.waiting()[i],
                ) && self.owners()[self.waiting()[i]] == Owner::Quarantined,
    {
    }

    /// The number of slots fits in 32 bits.
    pub proof fn lemma_cap(&self)
        ensures
            0 <= self.cap() <= u32::MAX,
    {
    }

    /// A pool of `capacity` slots, none of them handed out.
    pub fn new(capacity: u32) -> (p: SlotPool)
        ensures
            p.wf(),
            p.cap() == capacity,
            p.owners() == Map::<u32, Owner>::empty(),
            p.ready() == capacity,
            p.waiting() == Seq::<u32>::empty(),
            p.plan() == (SlotPlan { cap: capacity as int, next: 0, free: Seq::empty(), waiting: Seq::empty() }),
    {
        SlotPool {
            capacity,
            high_water: 0,
            free: Vec::new(),
            quarantine: Vec::new(),
            owner: Ghost(Map::empty()),
        }
    }

    /// The number of slots.
    pub fn capacity(&self) -> (n: u32)
        ensures
            n == self.cap(),
    {
        self.capacity
    }

    /// Claim a slot for the brick `k`: the next one that was never handed out, or else the last one
    /// freed, or `None` when there is neither.
    pub fn claim(&mut self, k: Ghost<Key>) -> (r: Option<u32>)
        requires
            old(self).wf(),
        ensures
            final(self).wf(),
            final(self).cap() == old(self).cap(),
            final(self).waiting() == old(self).waiting(),
            (final(self).plan(), r) == claim_slot(old(self).plan()),
            r is Some == (old(self).ready() > 0),
            r is None ==> final(self).owners() == old(self).owners() && final(self).ready() == 0,
            r matches Some(s) ==> {
                &&& final(self).owners() == old(self).owners().insert(s, Owner::Held(k@))
                &&& final(self).ready() == old(self).ready() - 1
                &&& s < old(self).cap()
                &&& (old(self).owners().dom().contains(s) ==> old(self).owners()[s] == Owner::Free)
            },
    {
        if self.high_water < self.capacity {
            let s: u32 = self.high_water;
            self.high_water = s + 1;
            self.owner = Ghost(self.owner@.insert(s, Owner::Held(k@)));
            Some(s)
        } else {
            let ghost list = self.free@;
            match self.free.pop() {
                Some(s) => {
                    self.owner = Ghost(self.owner@.insert(s, Owner::Held(k@)));
                    assert(list[list.len() - 1] == s);
                    assert forall|i: int| 0 <= i < self.free@.len() implies self.owner@.dom().contains(
                        #[trigger] self.free@[i],
                    ) && self.owner@[self.free@[i]] == Owner::Free by {
                        assert(self.free@[i] == list[i]);
                    }
                    assert(self.free@.no_duplicates());
                    assert(self.free@ =~= list.drop_last());
                    Some(s)
                },
                None => None,
            }
        }
    }

    /// Give back the slot of a brick. It waits in quarantine.
    pub fn retire(&mut self, s: u32)
        requires
            old(self).wf(),
            old(self).owners().dom().contains(s),
            old(self).owners()[s] is Held,
        ensures
            final(self).wf(),
            final(self).cap() == old(self).cap(),
            final(self).ready() == old(self).ready(),
            final(self).owners() == old(self).owners().insert(s, Owner::Quarantined),
            final(self).waiting() == old(self).waiting().push(s),
            final(self).plan() == give_slot(old(self).plan(), s),
    {
        self.quarantine.push(s);
        self.owner = Ghost(self.owner@.insert(s, Owner::Quarantined));
        assert(self.quarantine@.no_duplicates());
        assert forall|i: int| 0 <= i < self.quarantine@.len() implies self.owner@.dom().contains(
            #[trigger] self.quarantine@[i],
        ) && self.owner@[self.quarantine@[i]] == Owner::Quarantined by {
            if i < self.quarantine@.len() - 1 {
                assert(self.quarantine@[i] == old(self).quarantine@[i]);
            }
        }
    }

    /// Make every slot in quarantine free.
    pub fn release(&mut self)
        requires
            old(self).wf(),
        ensures
            final(self).wf(),
            final(self).cap() == old(self).cap(),
            final(self).waiting() == Seq::<u32>::empty(),
            final(self).plan() == release_slots(old(self).plan()),
            final(self).ready() == old(self).ready() + old(self).waiting().len(),
            final(self).owners().dom() == old(self).owners().dom(),
            forall|s: u32| #[trigger]
                old(self).owners().dom().contains(s) ==> final(self).owners()[s] == (if old(
                    self,
                ).owners()[s] == Owner::Quarantined && old(self).waiting().contains(s) {
                    Owner::Free
                } else {
                    old(self).owners()[s]
                }),
    {
        let mut list: Vec<u32> = Vec::new();
        std::mem::swap(&mut list, &mut self.quarantine);
        let mut i: usize = 0;
        let ghost owner0 = self.owner@;
        assert(old(self).free@ + list@.take(0) =~= self.free@);
        while i < list.len()
            invariant
                i <= list@.len(),
                list@ == old(self).quarantine@,
                list@.no_duplicates(),
                owner0 == old(self).owner@,
                self.wf(),
                self.quarantine@.len() == 0,
                self.capacity == old(self).capacity,
                self.high_water == old(self).high_water,
                self.free@ == old(self).free@ + list@.take(i as int),
                self.owner@.dom() == owner0.dom(),
                forall|j: int|
                    i <= j < list@.len() ==> self.owner@.dom().contains(#[trigger] list@[j])
                        && self.owner@[list@[j]] == Owner::Quarantined,
                forall|s: u32| #[trigger]
                    owner0.dom().contains(s) ==> self.owner@[s] == (if exists|j: int|
                        0 <= j < i && #[trigger] list@[j] == s {
                        Owner::Free
                    } else {
                        owner0[s]
                    }),
            decreases list@.len() - i,
        {
            let s: u32 = list[i];
            let ghost before = *self;
            self.free.push(s);
            self.owner = Ghost(self.owner@.insert(s, Owner::Free));
            proof {
                assert(self.free@ =~= old(self).free@ + list@.take(i + 1));
                assert(self.owner@.dom() =~= owner0.dom());
                assert forall|j: int| 0 <= j < self.free@.len() implies self.owner@.dom().contains(
                    #[trigger] self.free@[j],
                ) && self.owner@[self.free@[j]] == Owner::Free by {
                    if j < before.free@.len() {
                        assert(self.free@[j] == before.free@[j]);
                    }
                }
                assert forall|a: int, b: int|
                    0 <= a < self.free@.len() && 0 <= b < self.free@.len() && a != b implies self.free@[a]
                    != self.free@[b] by {
                    if a < before.free@.len() {
                        assert(self.free@[a] == before.free@[a]);
                    }
                    if b < before.free@.len() {
                        assert(self.free@[b] == before.free@[b]);
                    }
                }
                assert forall|t: u32| #[trigger] owner0.dom().contains(t) implies self.owner@[t] == (
                if exists|j: int| 0 <= j < i + 1 && #[trigger] list@[j] == t {
                    Owner::Free
                } else {
                    owner0[t]
                }) by {
                    if t == s {
                        assert(list@[i as int] == t);
                    } else if exists|j: int| 0 <= j < i + 1 && #[trigger] list@[j] == t {
                        let j = choose|j: int| 0 <= j < i + 1 && #[trigger] list@[j] == t;
                        assert(j < i);
                    }
                }
            }
            i = i + 1;
        }
        proof {
            assert(list@.take(i as int) =~= list@);
            assert forall|s: u32| #[trigger] owner0.dom().contains(s) implies self.owner@[s] == (
            if owner0[s] == Owner::Quarantined && list@.contains(s) {
                Owner::Free
            } else {
                owner0[s]
            }) by {
                if exists|j: int| 0 <= j < i && #[trigger] list@[j] == s {
                    let j = choose|j: int| 0 <= j < i && #[trigger] list@[j] == s;
                    assert(list@[j] == s);
                    assert(list@.contains(s));
                } else if list@.contains(s) {
                    let j = choose|j: int| 0 <= j < list@.len() && list@[j] == s;
                    assert(list@[j] == s);
                }
            }
        }
    }
}

/// The offsets of the blocks of class `c` among the first `n` blocks given back, in their order. A block is given back
/// with the request it was allocated for.
pub open spec fn returned(sizes: Seq<u32>, list: Seq<(u32, u32)>, c: int, n: nat) -> Seq<u32>
    decreases n,
{
    if n == 0 {
        Seq::empty()
    } else {
        let before = returned(sizes, list, c, (n - 1) as nat);
        if class_for(sizes, list[n - 1].1 as int) == c {
            before.push(list[n - 1].0)
        } else {
            before
        }
    }
}

/// What the blocks of a pool are handed out by: per class the free blocks, how many words were ever handed out, and
/// which blocks are in quarantine, each with the request it was allocated for.
#[verifier::ext_equal]
pub struct PoolPlan {
    /// Per class, the free blocks, last freed first to be reused.
    pub free: Seq<Seq<u32>>,
    pub used: int,
    pub waiting: Seq<(u32, u32)>,
}

/// The plan of a pool with these class sizes and no blocks.
pub open spec fn no_blocks(sizes: Seq<u32>) -> PoolPlan {
    PoolPlan { free: Seq::new(sizes.len(), |c: int| Seq::empty()), used: 0, waiting: Seq::empty() }
}

/// The block to take for `words` words, and the plan after it: the last freed block of its class, or else a new one
/// past the used words.
pub open spec fn take_block(sizes: Seq<u32>, p: PoolPlan, words: int) -> (PoolPlan, u32) {
    let c = class_for(sizes, words);
    if p.free[c].len() > 0 {
        (PoolPlan { free: p.free.update(c, p.free[c].drop_last()), ..p }, p.free[c].last())
    } else {
        (PoolPlan { used: p.used + sizes[c], ..p }, p.used as u32)
    }
}

/// The plan after a block was given back.
pub open spec fn give_block(p: PoolPlan, off: u32, words: u32) -> PoolPlan {
    PoolPlan { waiting: p.waiting.push((off, words)), ..p }
}

/// The plan after the quarantine was emptied: each block went to the end of the free list of its class.
pub open spec fn release_blocks(sizes: Seq<u32>, p: PoolPlan) -> PoolPlan {
    PoolPlan {
        free: Seq::new(sizes.len(), |c: int| p.free[c] + returned(sizes, p.waiting, c, p.waiting.len())),
        used: p.used,
        waiting: Seq::empty(),
    }
}

/// Blocks of a [`SlabArena`], each with an owner. A block that was given back waits in quarantine until
/// the next release.
pub struct BlockPool {
    arena: SlabArena,
    /// Blocks given back since the last release, each with the request it was allocated for.
    quarantine: Vec<(u32, u32)>,
    /// The owner of each block.
    owner: Ghost<Map<u32, Owner>>,
}

impl BlockPool {
    /// The class sizes.
    pub closed spec fn sizes(&self) -> Seq<u32> {
        self.arena.sizes()
    }

    /// The class of the block at each offset.
    pub closed spec fn layout(&self) -> Map<u32, int> {
        self.arena.layout()
    }

    /// The owner of each block.
    pub closed spec fn owners(&self) -> Map<u32, Owner> {
        self.owner@
    }

    /// Words handed out at least once.
    pub closed spec fn used(&self) -> int {
        self.arena.used()
    }

    /// The capacity that the buffer was last sized to.
    pub closed spec fn cap(&self) -> int {
        self.arena.cap()
    }

    /// The reserved capacity.
    pub closed spec fn floor(&self) -> int {
        self.arena.floor()
    }

    /// Whether an allocation since the last commit went past the buffer's capacity.
    pub closed spec fn has_grown(&self) -> bool {
        self.arena.has_grown()
    }

    /// The free blocks of a class. The last is the first to be reused.
    pub closed spec fn free_of(&self, c: int) -> Seq<u32> {
        self.arena.free_of(c)
    }

    /// The blocks in quarantine, each with the request it was allocated for.
    pub closed spec fn waiting(&self) -> Seq<(u32, u32)> {
        self.quarantine@
    }

    /// What blocks are handed out by.
    pub open spec fn plan(&self) -> PoolPlan {
        PoolPlan {
            free: Seq::new(self.sizes().len(), |c: int| self.free_of(c)),
            used: self.used(),
            waiting: self.waiting(),
        }
    }

    /// Free blocks are free, the blocks in quarantine are those that are owned by it, and none is in both.
    pub closed spec fn wf(&self) -> bool {
        &&& self.sound()
        &&& forall|o: u32| #[trigger]
            self.owner@.dom().contains(o) && self.owner@[o] == Owner::Quarantined ==> exists|i: int|
                0 <= i < self.quarantine@.len() && (#[trigger] self.quarantine@[i]).0 == o
    }

    /// What the free lists and the quarantine say of the owners.
    spec fn sound(&self) -> bool {
        &&& self.arena.wf()
        &&& self.arena.used() < 0x8000_0000
        &&& self.owner@.dom() == self.arena.layout().dom()
        &&& forall|c: int, i: int|
            0 <= c < self.arena.sizes().len() && 0 <= i < self.arena.free_of(c).len()
                ==> self.owner@[#[trigger] self.arena.free_of(c)[i]] == Owner::Free
        &&& forall|i: int|
            0 <= i < self.quarantine@.len() ==> {
                let q = #[trigger] self.quarantine@[i];
                &&& self.owner@.dom().contains(q.0)
                &&& self.owner@[q.0] == Owner::Quarantined
                &&& is_class(
                    self.arena.sizes(),
                    q.1 as int,
                    class_for(self.arena.sizes(), q.1 as int),
                )
                &&& self.arena.layout()[q.0] == class_for(self.arena.sizes(), q.1 as int)
            }
        &&& forall|i: int, j: int|
            0 <= i < j < self.quarantine@.len() ==> (#[trigger] self.quarantine@[i]).0 != (
            #[trigger] self.quarantine@[j]).0
    }

    /// What well-formedness says of the blocks: they lie inside the used words, do not overlap, and,
    /// without a growth mark, fit the buffer.
    pub proof fn lemma_blocks(&self)
        requires
            self.wf(),
        ensures
            classes_ok(self.sizes()),
            0 <= self.used() < 0x8000_0000,
            !self.has_grown() ==> self.used() <= self.cap(),
            self.owners().dom() == self.layout().dom(),
            forall|o: u32| #[trigger]
                self.layout().dom().contains(o) ==> 0 <= self.layout()[o] < self.sizes().len() && o
                    + self.sizes()[self.layout()[o]] <= self.used(),
            forall|o: u32, p: u32|
                #![trigger self.layout().dom().contains(o), self.layout().dom().contains(p)]
                self.layout().dom().contains(o) && self.layout().dom().contains(p) && o < p ==> o
                    + self.sizes()[self.layout()[o]] <= p,
    {
        self.arena.lemma_layout();
    }

    /// A pool without blocks.
    pub fn new(classes: Vec<u32>) -> (p: BlockPool)
        requires
            classes_ok(classes@),
        ensures
            p.wf(),
            p.sizes() == classes@,
            p.layout() == Map::<u32, int>::empty(),
            p.owners() == Map::<u32, Owner>::empty(),
            p.used() == 0,
            p.cap() == 0,
            p.floor() == 0,
            !p.has_grown(),
            p.waiting() == Seq::<(u32, u32)>::empty(),
            forall|c: int| 0 <= c < classes@.len() ==> #[trigger] p.free_of(c) == Seq::<u32>::empty(),
            p.plan() == no_blocks(classes@),
    {
        let p = BlockPool {
            arena: SlabArena::new(classes),
            quarantine: Vec::new(),
            owner: Ghost(Map::empty()),
        };
        assert(p.owner@.dom() =~= p.arena.layout().dom());
        assert(p.plan().free =~= no_blocks(p.sizes()).free);
        p
    }

    /// Raise the reserved capacity to `blocks * mean_words_per_block` words, cut off at the largest
    /// 32-bit number.
    pub fn reserve(&mut self, blocks: u32, mean_words_per_block: u32)
        requires
            old(self).wf(),
        ensures
            final(self).wf(),
            final(self).floor() == floor_with(old(self).floor(), blocks as int, mean_words_per_block as int),
            final(self).sizes() == old(self).sizes(),
            final(self).layout() == old(self).layout(),
            final(self).owners() == old(self).owners(),
            final(self).used() == old(self).used(),
            final(self).cap() == old(self).cap(),
            final(self).has_grown() == old(self).has_grown(),
            final(self).waiting() == old(self).waiting(),
            forall|c: int|
                0 <= c < old(self).sizes().len() ==> #[trigger] final(self).free_of(c) == old(
                    self,
                ).free_of(c),
            final(self).plan() == old(self).plan(),
    {
        self.arena.reserve(blocks, mean_words_per_block);
        assert(self.plan().free =~= old(self).plan().free);
    }

    /// The smallest class of at least `words` words.
    pub fn class_of(&self, words: u32) -> (c: usize)
        requires
            self.wf(),
            is_class(self.sizes(), words as int, class_for(self.sizes(), words as int)),
        ensures
            c == class_for(self.sizes(), words as int),
    {
        self.arena.class_of(words)
    }

    /// Whether an allocation went past the buffer's capacity.
    pub fn grew(&self) -> (b: bool)
        ensures
            b == self.has_grown(),
    {
        self.arena.grew
    }

    /// Allocate a block of at least `words` words for the brick `k`. It is a block that nobody holds and
    /// that is not in quarantine.
    pub fn take(&mut self, words: u32, k: Ghost<Key>) -> (off: u32)
        requires
            old(self).wf(),
            is_class(old(self).sizes(), words as int, class_for(old(self).sizes(), words as int)),
            take_block(old(self).sizes(), old(self).plan(), words as int).0.used < 0x8000_0000,
        ensures
            final(self).wf(),
            (final(self).plan(), off) == take_block(old(self).sizes(), old(self).plan(), words as int),
            final(self).sizes() == old(self).sizes(),
            final(self).cap() == old(self).cap(),
            final(self).floor() == old(self).floor(),
            old(self).used() <= final(self).used() <= old(self).used() + old(self).sizes()[class_for(
                old(self).sizes(),
                words as int,
            )],
            final(self).has_grown() == (old(self).has_grown() || final(self).used() > old(self).cap()),
            old(self).owners().dom().contains(off) ==> old(self).owners()[off] == Owner::Free,
            final(self).owners() == old(self).owners().insert(off, Owner::Held(k@)),
            final(self).layout() == old(self).layout().insert(
                off,
                class_for(old(self).sizes(), words as int),
            ),
            old(self).layout().dom().contains(off) ==> old(self).layout()[off] == class_for(
                old(self).sizes(),
                words as int,
            ),
            off < 0x8000_0000,
            final(self).waiting() == old(self).waiting(),
            ({
                let c = class_for(old(self).sizes(), words as int);
                let list = old(self).free_of(c);
                if list.len() > 0 {
                    &&& off == list.last()
                    &&& final(self).free_of(c) == list.drop_last()
                    &&& final(self).used() == old(self).used()
                } else {
                    &&& off == old(self).used()
                    &&& final(self).free_of(c) == list
                    &&& final(self).used() == old(self).used() + old(self).sizes()[c]
                }
            }),
            forall|c: int|
                0 <= c < old(self).sizes().len() && c != class_for(
                    old(self).sizes(),
                    words as int,
                ) ==> #[trigger] final(self).free_of(c) == old(self).free_of(c),
    {
        let ghost c = class_for(self.arena.sizes(), words as int);
        proof {
            self.arena.lemma_layout();
        }
        let off: u32 = self.arena.claim_block(words);
        self.owner = Ghost(self.owner@.insert(off, Owner::Held(k@)));
        proof {
            self.arena.lemma_layout();
            assert(self.plan().free =~= take_block(old(self).sizes(), old(self).plan(), words as int).0.free);
            let before = old(self).arena;
            let list = before.free_of(c);
            if list.len() > 0 {
                assert(list[list.len() - 1] == off);
                assert(before.layout().insert(off, c) =~= before.layout());
            }
            assert(self.owner@.dom() =~= self.arena.layout().dom());
            assert forall|d: int, i: int|
                0 <= d < self.arena.sizes().len() && 0 <= i < self.arena.free_of(
                    d,
                ).len() implies self.owner@[#[trigger] self.arena.free_of(d)[i]] == Owner::Free by {
                if d == c {
                    assert(self.arena.free_of(d)[i] == before.free_of(d)[i]);
                    if list.len() > 0 {
                        assert(list.no_duplicates());
                        assert(list[i] != list[list.len() - 1]);
                    }
                } else {
                    assert(self.arena.free_of(d) == before.free_of(d));
                    assert(before.layout()[before.free_of(d)[i]] == d);
                }
            }
            assert forall|i: int| 0 <= i < self.quarantine@.len() implies self.owner@[(
            #[trigger] self.quarantine@[i]).0] == Owner::Quarantined by {
                let q = old(self).quarantine@[i];
                assert(old(self).owner@[q.0] == Owner::Quarantined);
            }
            assert forall|o: u32| #[trigger]
                self.owner@.dom().contains(o) && self.owner@[o] == Owner::Quarantined implies exists|i: int|
                0 <= i < self.quarantine@.len() && (#[trigger] self.quarantine@[i]).0 == o by {
                assert(old(self).owner@.dom().contains(o));
            }
        }
        off
    }

    /// Give back a block that was allocated for `words` words. It waits in quarantine.
    pub fn retire(&mut self, off: u32, words: u32)
        requires
            old(self).wf(),
            old(self).owners().dom().contains(off),
            old(self).owners()[off] is Held,
            is_class(old(self).sizes(), words as int, class_for(old(self).sizes(), words as int)),
            old(self).layout()[off] == class_for(old(self).sizes(), words as int),
        ensures
            final(self).wf(),
            final(self).sizes() == old(self).sizes(),
            final(self).layout() == old(self).layout(),
            final(self).used() == old(self).used(),
            final(self).cap() == old(self).cap(),
            final(self).floor() == old(self).floor(),
            final(self).has_grown() == old(self).has_grown(),
            final(self).owners() == old(self).owners().insert(off, Owner::Quarantined),
            final(self).waiting() == old(self).waiting().push((off, words)),
            forall|c: int|
                0 <= c < old(self).sizes().len() ==> #[trigger] final(self).free_of(c) == old(
                    self,
                ).free_of(c),
            final(self).plan() == give_block(old(self).plan(), off, words),
    {
        self.quarantine.push((off, words));
        self.owner = Ghost(self.owner@.insert(off, Owner::Quarantined));
        proof {
            assert(self.plan().free =~= old(self).plan().free);
            assert(self.owner@.dom() =~= self.arena.layout().dom());
            assert forall|i: int| 0 <= i < self.quarantine@.len() - 1 implies (
            #[trigger] self.quarantine@[i]) == old(self).quarantine@[i] by {}
            assert forall|i: int, j: int| 0 <= i < j < self.quarantine@.len() implies (
            #[trigger] self.quarantine@[i]).0 != (#[trigger] self.quarantine@[j]).0 by {
                assert(old(self).owner@[old(self).quarantine@[i].0] == Owner::Quarantined);
            }
            assert forall|o: u32| #[trigger]
                self.owner@.dom().contains(o) && self.owner@[o] == Owner::Quarantined implies exists|i: int|
                0 <= i < self.quarantine@.len() && (#[trigger] self.quarantine@[i]).0 == o by {
                if o == off {
                    assert(self.quarantine@[self.quarantine@.len() - 1].0 == o);
                } else {
                    assert(old(self).owner@.dom().contains(o));
                    let i = choose|i: int|
                        0 <= i < old(self).quarantine@.len() && (#[trigger] old(self).quarantine@[i]).0 == o;
                    assert(self.quarantine@[i].0 == o);
                }
            }
        }
    }

    /// Make every block in quarantine free: each goes to the end of the free list of its class, in the order in which
    /// they were given back.
    pub fn release(&mut self)
        requires
            old(self).wf(),
        ensures
            final(self).wf(),
            final(self).sizes() == old(self).sizes(),
            final(self).layout() == old(self).layout(),
            final(self).used() == old(self).used(),
            final(self).cap() == old(self).cap(),
            final(self).floor() == old(self).floor(),
            final(self).has_grown() == old(self).has_grown(),
            final(self).owners().dom() == old(self).owners().dom(),
            forall|o: u32| #[trigger]
                old(self).owners().dom().contains(o) ==> final(self).owners()[o] == (if old(
                    self,
                ).owners()[o] == Owner::Quarantined {
                    Owner::Free
                } else {
                    old(self).owners()[o]
                }),
            final(self).waiting() == Seq::<(u32, u32)>::empty(),
            forall|c: int|
                0 <= c < old(self).sizes().len() ==> #[trigger] final(self).free_of(c) == old(
                    self,
                ).free_of(c) + returned(
                    old(self).sizes(),
                    old(self).waiting(),
                    c,
                    old(self).waiting().len(),
                ),
            final(self).plan() == release_blocks(old(self).sizes(), old(self).plan()),
    {
        let mut list: Vec<(u32, u32)> = Vec::new();
        std::mem::swap(&mut list, &mut self.quarantine);
        let ghost owner0 = self.owner@;
        let ghost sizes = self.arena.sizes();
        let ghost layout = self.arena.layout();
        let mut i: usize = 0;
        proof {
            assert forall|c: int| 0 <= c < sizes.len() implies #[trigger] self.arena.free_of(c) == old(
                self,
            ).arena.free_of(c) + returned(sizes, list@, c, 0) by {
                assert(self.arena.free_of(c) =~= old(self).arena.free_of(c) + Seq::empty());
            }
        }
        while i < list.len()
            invariant
                i <= list@.len(),
                list@ == old(self).quarantine@,
                owner0 == old(self).owner@,
                self.sound(),
                self.quarantine@.len() == 0,
                forall|c: int|
                    0 <= c < sizes.len() ==> #[trigger] self.arena.free_of(c) == old(
                        self,
                    ).arena.free_of(c) + returned(sizes, list@, c, i as nat),
                self.arena.sizes() == sizes,
                self.arena.layout() == layout,
                sizes == old(self).sizes(),
                layout == old(self).layout(),
                self.arena.used() == old(self).used(),
                self.arena.cap() == old(self).cap(),
                self.arena.floor() == old(self).floor(),
                self.arena.has_grown() == old(self).has_grown(),
                self.owner@.dom() == owner0.dom(),
                forall|j: int|
                    i <= j < list@.len() ==> {
                        let q = #[trigger] list@[j];
                        &&& self.owner@.dom().contains(q.0)
                        &&& self.owner@[q.0] == Owner::Quarantined
                        &&& is_class(sizes, q.1 as int, class_for(sizes, q.1 as int))
                        &&& layout[q.0] == class_for(sizes, q.1 as int)
                    },
                forall|j: int, l: int|
                    0 <= j < l < list@.len() ==> (#[trigger] list@[j]).0 != (#[trigger] list@[l]).0,
                forall|j: int| 0 <= j < i ==> self.owner@[(#[trigger] list@[j]).0] == Owner::Free,
                forall|o: u32| #[trigger]
                    owner0.dom().contains(o) ==> self.owner@[o] == owner0[o] || owner0[o]
                        == Owner::Quarantined && self.owner@[o] == Owner::Free,
            decreases list@.len() - i,
        {
            let off: u32 = list[i].0;
            let words: u32 = list[i].1;
            let ghost before = *self;
            let ghost c = class_for(sizes, words as int);
            proof {
                let q = list@[i as int];
                assert(self.owner@[q.0] == Owner::Quarantined);
                before.arena.lemma_layout();
                if before.arena.free_of(c).contains(off) {
                    let j = choose|j: int|
                        0 <= j < before.arena.free_of(c).len() && before.arena.free_of(c)[j] == off;
                    assert(before.owner@[before.arena.free_of(c)[j]] == Owner::Free);
                }
            }
            self.arena.free_block(off, words);
            self.owner = Ghost(self.owner@.insert(off, Owner::Free));
            proof {
                assert(self.owner@.dom() =~= owner0.dom());
                assert forall|d: int, j: int|
                    0 <= d < self.arena.sizes().len() && 0 <= j < self.arena.free_of(
                        d,
                    ).len() implies self.owner@[#[trigger] self.arena.free_of(d)[j]] == Owner::Free by {
                    if d == c {
                        if j < before.arena.free_of(d).len() {
                            assert(self.arena.free_of(d)[j] == before.arena.free_of(d)[j]);
                            assert(before.owner@[before.arena.free_of(d)[j]] == Owner::Free);
                        }
                    } else {
                        assert(self.arena.free_of(d) == before.arena.free_of(d));
                        assert(before.owner@[before.arena.free_of(d)[j]] == Owner::Free);
                    }
                }
                assert forall|d: int| 0 <= d < sizes.len() implies #[trigger] self.arena.free_of(d) == old(
                    self,
                ).arena.free_of(d) + returned(sizes, list@, d, (i + 1) as nat) by {
                    assert(before.arena.free_of(d) == old(self).arena.free_of(d) + returned(
                        sizes,
                        list@,
                        d,
                        i as nat,
                    ));
                    assert(self.arena.free_of(d) =~= old(self).arena.free_of(d) + returned(
                        sizes,
                        list@,
                        d,
                        (i + 1) as nat,
                    ));
                }
            }
            i = i + 1;
        }
        proof {
            assert forall|o: u32| #[trigger] owner0.dom().contains(o) && owner0[o] == Owner::Quarantined implies
                self.owner@[o] == Owner::Free by {
                let j = choose|j: int|
                    0 <= j < old(self).quarantine@.len() && (#[trigger] old(self).quarantine@[j]).0 == o;
                assert(list@[j].0 == o);
            }
            assert(self.plan().free =~= release_blocks(old(self).sizes(), old(self).plan()).free);
        }
    }

    /// Record a buffer sized to the pool and clear the growth mark.
    pub fn commit(&mut self) -> (n: usize)
        requires
            old(self).wf(),
        ensures
            final(self).wf(),
            n == capacity_for(
                old(self).used(),
                old(self).sizes()[old(self).sizes().len() - 1] as int,
                old(self).floor(),
            ),
            final(self).cap() == n,
            !final(self).has_grown(),
            final(self).sizes() == old(self).sizes(),
            final(self).layout() == old(self).layout(),
            final(self).owners() == old(self).owners(),
            final(self).used() == old(self).used(),
            final(self).floor() == old(self).floor(),
            final(self).waiting() == old(self).waiting(),
            forall|c: int|
                0 <= c < old(self).sizes().len() ==> #[trigger] final(self).free_of(c) == old(
                    self,
                ).free_of(c),
            final(self).plan() == old(self).plan(),
    {
        let ghost before = self.arena;
        let n: usize = self.arena.commit();
        proof {
            assert forall|c: int, i: int|
                0 <= c < self.arena.sizes().len() && 0 <= i < self.arena.free_of(
                    c,
                ).len() implies self.owner@[#[trigger] self.arena.free_of(c)[i]] == Owner::Free by {
                assert(self.arena.free_of(c) == before.free_of(c));
                assert(self.owner@[before.free_of(c)[i]] == Owner::Free);
            }
            assert(self.plan().free =~= old(self).plan().free);
        }
        n
    }
}

/// A request goes to the smallest class that it fits into.
pub proof fn law_smallest_class_that_fits(classes: Seq<u32>, words: int, c: int)
    requires
        classes_ok(classes),
        0 <= c < classes.len(),
    ensures
        class_for(classes, words) == c && is_class(classes, words, c) <==> words <= classes[c] && (c == 0 || classes[c - 1]
            < words),
        is_class(classes, words, c) ==> forall|d: int| 0 <= d < classes.len() && words <= #[trigger] classes[d] ==> classes[c]
            <= classes[d],
{
    if words <= classes[c] && (c == 0 || classes[c - 1] < words) {
        assert forall|i: int| 0 <= i < c implies #[trigger] classes[i] < words by {
            if i < c - 1 {
                assert(classes[i] < classes[c - 1]);
            }
        }
        assert(is_class(classes, words, c));
        let d = class_for(classes, words);
        assert(is_class(classes, words, d));
    }
}

/// The capacity of a buffer is the least number that has room for all that is used and as much again, for eight thousand
/// and some words more, for a block of the greatest class, and for what was reserved.
pub proof fn law_capacity(used: int, last_class: int, floor: int, n: int)
    ensures
        n >= capacity_for(used, last_class, floor) <==> n >= 2 * used && n >= used + 8192 && n >= last_class && n >= floor,
{
}

/// Reserving room makes the least capacity as great as what was asked for, or as great as can be; it never makes it less.
pub proof fn law_reserve(floor: int, blocks: int, mean_words: int, n: int)
    ensures
        blocks * mean_words <= 0xFFFF_FFFF ==> (n >= floor_with(floor, blocks, mean_words) <==> n >= floor && n >= blocks
            * mean_words),
        blocks * mean_words > 0xFFFF_FFFF ==> (n >= floor_with(floor, blocks, mean_words) <==> n >= floor && n
            >= 0xFFFF_FFFF),
{
}

/// Slots are handed out in order while there are fresh ones; then those that were freed, the last of them first; and
/// none where there is none. A slot that was given back is not among them before the release, and after it the one that
/// was given back last is the first to be handed out.
pub proof fn law_slots_come_back(p: SlotPlan, s: u32)
    ensures
        p.next < p.cap ==> claim_slot(p).1 == Some(p.next as u32) && claim_slot(p).0.next == p.next + 1
            && claim_slot(p).0.free == p.free,
        p.next >= p.cap && p.free.len() == 0 ==> claim_slot(p) == (p, None::<u32>),
        p.next >= p.cap && p.free.len() > 0 ==> claim_slot(p).1 == Some(p.free[p.free.len() - 1]) && claim_slot(p).0.next
            == p.next && claim_slot(p).0.free == p.free.take(p.free.len() - 1),
        claim_slot(p).0.cap == p.cap && claim_slot(p).0.waiting == p.waiting,
        claim_slot(give_slot(p, s)).1 == claim_slot(p).1,
        give_slot(p, s).waiting.len() == p.waiting.len() + 1 && give_slot(p, s).waiting.last() == s,
        give_slot(p, s).free == p.free && give_slot(p, s).next == p.next && give_slot(p, s).cap == p.cap,
        release_slots(p).waiting.len() == 0,
        release_slots(p).next == p.next && release_slots(p).cap == p.cap,
        release_slots(p).free == p.free + p.waiting,
        p.next >= p.cap ==> claim_slot(release_slots(give_slot(p, s))).1 == Some(s),
{
    assert(p.free.len() > 0 ==> p.free.drop_last() =~= p.free.take(p.free.len() - 1));
    let q = release_slots(give_slot(p, s));
    assert(q.free.last() == s);
}

/// A block for a request is the last freed one of the class that fits, or a new one behind all that is used. What was
/// given back is not handed out before the release, and after it the block that was given back last in a class is the
/// first to be handed out there; blocks of another class stay for that.
pub proof fn law_blocks_come_back(sizes: Seq<u32>, p: PoolPlan, words: u32, off: u32, c: int, d: int)
    requires
        classes_ok(sizes),
        p.free.len() == sizes.len(),
        is_class(sizes, words as int, c),
        0 <= d < sizes.len(),
    ensures
        p.free[c].len() > 0 ==> {
            let (q, o) = take_block(sizes, p, words as int);
            &&& o == p.free[c][p.free[c].len() - 1]
            &&& q.free[c] == p.free[c].take(p.free[c].len() - 1)
            &&& d != c ==> q.free[d] == p.free[d]
            &&& q.used == p.used && q.waiting == p.waiting
        },
        p.free[c].len() == 0 ==> {
            let (q, o) = take_block(sizes, p, words as int);
            &&& o == p.used as u32
            &&& q.free == p.free
            &&& q.used == p.used + sizes[c] && q.waiting == p.waiting
        },
        take_block(sizes, give_block(p, off, words), words as int).1 == take_block(sizes, p, words as int).1,
        ({
            let q = release_blocks(sizes, give_block(p, off, words));
            &&& q.waiting.len() == 0
            &&& q.used == p.used
            &&& q.free.len() == sizes.len()
            &&& q.free[c].len() > 0 && q.free[c].last() == off
            &&& d != c ==> q.free[d] == release_blocks(sizes, p).free[d]
            &&& take_block(sizes, q, words as int).1 == off
        }),
        p.waiting.len() == 0 ==> release_blocks(sizes, p).free == p.free,
{
    law_smallest_class_that_fits(sizes, words as int, c);
    let e = class_for(sizes, words as int);
    assert(is_class(sizes, words as int, e));
    assert(e == c) by {
        if e < c {
            assert(sizes[e] < words);
        } else if c < e {
            assert(sizes[c] < words);
        }
    }
    if p.free[c].len() > 0 {
        assert(p.free[c].drop_last() =~= p.free[c].take(p.free[c].len() - 1));
    }
    let g = give_block(p, off, words);
    let n = p.waiting.len();
    lemma_returned_prefix(sizes, g.waiting, p.waiting, c, n);
    lemma_returned_prefix(sizes, g.waiting, p.waiting, d, n);
    assert(g.waiting[n as int] == (off, words));
    let q = release_blocks(sizes, g);
    assert(q.free[c].last() == off);
    if p.waiting.len() == 0 {
        assert(release_blocks(sizes, p).free =~= p.free) by {
            assert forall|h: int| 0 <= h < sizes.len() implies release_blocks(sizes, p).free[h] == p.free[h] by {
                assert(p.free[h] + returned(sizes, p.waiting, h, 0) =~= p.free[h]);
            }
        }
    }
}

/// What came back to a class goes by the blocks that were given back.
proof fn lemma_returned_prefix(sizes: Seq<u32>, a: Seq<(u32, u32)>, b: Seq<(u32, u32)>, c: int, n: nat)
    requires
        forall|i: int| 0 <= i < n ==> #[trigger] a[i] == b[i],
    ensures
        returned(sizes, a, c, n) == returned(sizes, b, c, n),
    decreases n,
{
    if n > 0 {
        lemma_returned_prefix(sizes, a, b, c, (n - 1) as nat);
        assert(a[n - 1] == b[n - 1]);
    }
}

/// A pool without blocks has none to reuse, uses nothing and waits for none.
pub proof fn law_empty_pool(sizes: Seq<u32>, c: int)
    requires
        0 <= c < sizes.len(),
    ensures
        no_blocks(sizes).free.len() == sizes.len(),
        no_blocks(sizes).free[c].len() == 0,
        no_blocks(sizes).used == 0,
        no_blocks(sizes).waiting.len() == 0,
{
}

} // verus!
