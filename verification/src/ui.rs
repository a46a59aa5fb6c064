//! The rules of the inventory, loot and tooltip windows.
//!
//! An entity is known by a number. Positions on the screen are bit patterns of floats.

use crate::text::{append_decimal, chars_of, decimal};
use vstd::prelude::*;

verus! {

/// How rare an item is.
#[derive(Clone, Copy, Debug, PartialEq, Eq, Structural)]
pub enum Rarity {
    Common,
    Uncommon,
    Rare,
    Epic,
    Legendary,
}

/// The label of a rarity.
pub open spec fn rarity_label(r: Rarity) -> Seq<char> {
    match r {
        Rarity::Common => "Common"@,
        Rarity::Uncommon => "Uncommon"@,
        Rarity::Rare => "Rare"@,
        Rarity::Epic => "Epic"@,
        Rarity::Legendary => "Legendary"@,
    }
}

/// The label of a rarity.
pub fn item_rarity_label(rarity: &Rarity) -> (s: &'static str)
    ensures
        s@ == rarity_label(*rarity),
{
    match rarity {
        Rarity::Common => "Common",
        Rarity::Uncommon => "Uncommon",
        Rarity::Rare => "Rare",
        Rarity::Epic => "Epic",
        Rarity::Legendary => "Legendary",
    }
}

/// A stack of one item.
#[derive(Clone, Debug)]
pub struct ItemStack {
    pub name: String,
    pub rarity: Rarity,
    pub level_requirement: u32,
    pub quantity: u32,
}

/// The number of bytes of a character.
pub open spec fn char_bytes(c: char) -> nat {
    let n = c as u32;
    if n < 0x80 {
        1
    } else if n < 0x800 {
        2
    } else if n < 0x1_0000 {
        3
    } else {
        4
    }
}

/// The number of bytes of a text.
pub open spec fn text_bytes(s: Seq<char>) -> nat
    decreases s.len(),
{
    if s.len() == 0 {
        0
    } else {
        text_bytes(s.drop_last()) + char_bytes(s.last())
    }
}

fn char_len(c: char) -> (n: usize)
    ensures
        n == char_bytes(c),
{
    let n: u32 = c as u32;
    if n < 0x80 {
        1
    } else if n < 0x800 {
        2
    } else if n < 0x1_0000 {
        3
    } else {
        4
    }
}

/// The beginning of a text that has at most `max_len` bytes: as many whole characters as fit.
pub fn truncate_str(s: &str, max_len: usize) -> (out: String)
    ensures
        exists|k: int| #[trigger] is_longest(s@, max_len as nat, k) && out@ == s@.take(k),
{
    let v: Vec<char> = chars_of(s);
    let mut used: usize = 0;
    let mut k: usize = 0;
    proof {
        assert(s@.take(0) =~= Seq::empty());
    }
    while k < v.len()
        invariant
            k <= v@.len(),
            v@ == s@,
            used == text_bytes(s@.take(k as int)),
            used <= max_len,
        ensures
            k <= v@.len(),
            used == text_bytes(s@.take(k as int)),
            used <= max_len,
            k < v@.len() ==> text_bytes(s@.take(k + 1)) > max_len,
        decreases v@.len() - k,
    {
        let n: usize = char_len(v[k]);
        assert(s@.take(k + 1).drop_last() =~= s@.take(k as int));
        if n > max_len - used {
            break;
        }
        used = used + n;
        k = k + 1;
    }
    assert(is_longest(s@, max_len as nat, k as int));
    let out: String = String::from_str(s.substring_char(0, k));
    assert(out@ =~= s@.take(k as int));
    out
}

/// Whether the first `k` characters are as many as fit into `max` bytes.
pub open spec fn is_longest(s: Seq<char>, max: nat, k: int) -> bool {
    &&& 0 <= k <= s.len()
    &&& text_bytes(s.take(k)) <= max
    &&& k < s.len() ==> text_bytes(s.take(k + 1)) > max
}

/// A truncated text fits, and a text that fits is not truncated.
pub proof fn law_truncation(s: Seq<char>, max: nat, k: int)
    requires
        is_longest(s, max, k),
    ensures
        text_bytes(s.take(k)) <= max,
        text_bytes(s) <= max ==> s.take(k) == s,
{
    if k < s.len() {
        lemma_bytes_grow(s, k + 1, s.len() as int);
        assert(s.take(s.len() as int) =~= s);
    } else {
        assert(s.take(k) =~= s);
    }
}

proof fn lemma_bytes_grow(s: Seq<char>, a: int, b: int)
    requires
        0 <= a <= b <= s.len(),
    ensures
        text_bytes(s.take(a)) <= text_bytes(s.take(b)),
    decreases b,
{
    if a < b {
        lemma_bytes_grow(s, a, b - 1);
        assert(s.take(b).drop_last() =~= s.take(b - 1));
    }
}

/// What the interface remembers of the inventory and the loot window.
#[derive(Clone, Copy, Debug)]
pub struct InventoryUiState {
    pub inventory_open: bool,
    /// The container whose loot is shown.
    pub loot_target: Option<u64>,
    /// Where the last right click hit.
    pub last_right_click_pos: [u32; 2],
    /// The container whose loot window was built last.
    pub prev_loot_target: Option<u64>,
}

impl Default for InventoryUiState {
    /// Nothing is open.
    fn default() -> (s: InventoryUiState)
        ensures
            !s.inventory_open,
            s.loot_target is None,
            s.last_right_click_pos@ == seq![0u32, 0],
            s.prev_loot_target is None,
    {
        let zero: [u32; 2] = [0u32, 0u32];
        assert(zero@ =~= seq![0u32, 0]);
        InventoryUiState {
            inventory_open: false,
            loot_target: None,
            last_right_click_pos: zero,
            prev_loot_target: None,
        }
    }
}

/// The window that is being dragged.
#[derive(Clone, Copy, Debug)]
pub struct WindowDragState {
    pub dragging: Option<u64>,
    pub offset: [u32; 2],
}

impl Default for WindowDragState {
    /// No window is being dragged.
    fn default() -> (s: WindowDragState)
        ensures
            s.dragging is None,
            s.offset@ == seq![0u32, 0],
    {
        let zero: [u32; 2] = [0u32, 0u32];
        assert(zero@ =~= seq![0u32, 0]);
        WindowDragState { dragging: None, offset: zero }
    }
}

/// The row of a container in the loot window that was clicked or hovered.
#[derive(Clone, Copy, Debug, PartialEq, Eq, Structural)]
pub struct LootSlot {
    pub source_entity: u64,
    pub item_index: usize,
}

/// A container with loot.
#[derive(Clone, Debug)]
pub struct Lootable {
    pub entity: u64,
    pub items: Vec<ItemStack>,
}

/// The place of an entity's container in a list.
pub open spec fn container_at(list: Seq<Lootable>, entity: u64, k: int) -> bool {
    &&& 0 <= k < list.len()
    &&& list[k].entity == entity
    &&& forall|i: int| 0 <= i < k ==> (#[trigger] list[i]).entity != entity
}

/// Whether an entity has a container.
pub open spec fn has_container(list: Seq<Lootable>, entity: u64) -> bool {
    exists|k: int| #[trigger] container_at(list, entity, k)
}

fn find_container(list: &Vec<Lootable>, entity: u64) -> (r: Option<usize>)
    ensures
        r is Some == has_container(list@, entity),
        r matches Some(k) ==> container_at(list@, entity, k as int),
{
    let mut i: usize = 0;
    while i < list.len()
        invariant
            i <= list@.len(),
            forall|k: int| 0 <= k < i ==> (#[trigger] list@[k]).entity != entity,
        decreases list@.len() - i,
    {
        if list[i].entity == entity {
            assert(container_at(list@, entity, i as int));
            return Some(i);
        }
        i = i + 1;
    }
    None
}

/// A row of the loot window.
#[derive(Clone, Debug)]
pub struct LootRow {
    pub text: String,
    pub rarity: Rarity,
    pub slot: LootSlot,
}

/// The loot window.
#[derive(Clone, Debug)]
pub struct LootWindowView {
    pub pos: [u32; 2],
    pub rows: Vec<LootRow>,
}

/// What becomes of the loot window.
#[derive(Clone, Debug)]
pub enum LootWindowChange {
    /// The open window stays.
    Keep,
    /// There is to be no window.
    Remove,
    /// This window is to be there, in place of any other.
    Replace(LootWindowView),
}

/// The text of a stack in the loot window.
pub open spec fn loot_text(item: ItemStack) -> Seq<char> {
    item.name@ + " x"@ + decimal(item.quantity as nat)
}

/// Whether a window shows the items of a container, one row each, in order.
pub open spec fn shows_loot(rows: Seq<LootRow>, target: u64, items: Seq<ItemStack>) -> bool {
    &&& rows.len() == items.len()
    &&& forall|i: int|
        0 <= i < rows.len() ==> (#[trigger] rows[i]).text@ == loot_text(items[i]) && rows[i].rarity == items[i].rarity
            && rows[i].slot == (LootSlot { source_entity: target, item_index: i as usize })
}

/// What a slot of the inventory panel shows.
#[derive(Clone, Debug)]
pub enum SlotView {
    Empty,
    Item { label: String, quantity: String, rarity: Rarity },
}

/// The inventory panel.
#[derive(Clone, Debug)]
pub struct InventoryPanelView {
    pub gold: String,
    pub slots: Vec<SlotView>,
}

/// Whether a slot shows stack `i` of the inventory, or nothing past the last.
pub open spec fn shows_slot(v: SlotView, items: Seq<ItemStack>, i: int) -> bool {
    match v {
        SlotView::Empty => i >= items.len(),
        SlotView::Item { label, quantity, rarity } => {
            &&& i < items.len()
            &&& exists|k: int| #[trigger] is_longest(items[i].name@, 5, k) && label@ == items[i].name@.take(k)
            &&& quantity@ == "x"@ + decimal(items[i].quantity as nat)
            &&& rarity == items[i].rarity
        },
    }
}

impl InventoryUiState {
    /// The state after the inventory key.
    pub open spec fn after_key(self, pressed: bool) -> InventoryUiState {
        InventoryUiState {
            inventory_open: self.inventory_open != pressed,
            loot_target: if pressed && self.inventory_open {
                None
            } else {
                self.loot_target
            },
            ..self
        }
    }

    /// The state after a right click.
    pub open spec fn after_pick(self, hit: Option<u64>, pos: [u32; 2]) -> InventoryUiState {
        InventoryUiState {
            loot_target: if hit is Some {
                hit
            } else {
                self.loot_target
            },
            last_right_click_pos: if hit is Some {
                pos
            } else {
                self.last_right_click_pos
            },
            ..self
        }
    }

    /// The state after clicks into the loot window.
    pub open spec fn after_clicks(self, pressed: Seq<LootSlot>, close_pressed: bool) -> InventoryUiState {
        InventoryUiState {
            prev_loot_target: if pressed.len() > 0 {
                None
            } else {
                self.prev_loot_target
            },
            loot_target: if close_pressed {
                None
            } else {
                self.loot_target
            },
            ..self
        }
    }

    /// The state after containers were emptied.
    pub open spec fn after_emptied(self, emptied: Seq<u64>) -> InventoryUiState {
        InventoryUiState {
            loot_target: if self.loot_target is Some && emptied.contains(self.loot_target->0) {
                None
            } else {
                self.loot_target
            },
            ..self
        }
    }

    /// The inventory key: open or close the inventory; closing it closes the loot window too.
    pub fn toggle_inventory(&mut self, pressed: bool)
        ensures
            *final(self) == old(self).after_key(pressed),
    {
        if pressed {
            self.inventory_open = !self.inventory_open;
            if !self.inventory_open {
                self.loot_target = None;
            }
        }
    }

    /// A right click at `pos`, which hit the container `hit` first, or none.
    pub fn right_click_pick(&mut self, hit: Option<u64>, pos: [u32; 2])
        ensures
            *final(self) == old(self).after_pick(hit, pos),
    {
        if let Some(e) = hit {
            self.loot_target = Some(e);
            self.last_right_click_pos = pos;
        }
    }

    /// Whether the open loot window stays as it is: it was built for the target.
    pub open spec fn loot_settled(&self, window_present: bool) -> bool {
        window_present && self.loot_target is Some && self.prev_loot_target == self.loot_target
    }

    /// Whether there is something to show: a target with a container.
    pub open spec fn loot_shown(&self, containers: Seq<Lootable>) -> bool {
        self.loot_target is Some && has_container(containers, self.loot_target->0)
    }

    /// What becomes of the loot window. One that is open for the target stays; else, without a target, or without a
    /// container at it, there is none; else one is built in place of any that is open.
    pub fn spawn_loot_window(&mut self, window_present: bool, containers: &Vec<Lootable>) -> (r: LootWindowChange)
        ensures
            r is Keep <==> old(self).loot_settled(window_present),
            r is Remove <==> !old(self).loot_settled(window_present) && !old(self).loot_shown(containers@),
            r is Replace <==> !old(self).loot_settled(window_present) && old(self).loot_shown(containers@),
            final(self).prev_loot_target == if r is Replace {
                old(self).loot_target
            } else {
                old(self).prev_loot_target
            },
            final(self).loot_target == old(self).loot_target,
            final(self).inventory_open == old(self).inventory_open,
            final(self).last_right_click_pos == old(self).last_right_click_pos,
            r matches LootWindowChange::Replace(w) ==> w.pos == old(self).last_right_click_pos && exists|k: int|
                #[trigger] container_at(containers@, old(self).loot_target->0, k) && shows_loot(
                    w.rows@,
                    old(self).loot_target->0,
                    containers@[k].items@,
                ),
    {
        let target: u64 = match self.loot_target {
            Some(t) => t,
            None => {
                return LootWindowChange::Remove;
            },
        };
        if window_present {
            if let Some(p) = self.prev_loot_target {
                if p == target {
                    return LootWindowChange::Keep;
                }
            }
        }
        let at: usize = match find_container(containers, target) {
            Some(k) => k,
            None => {
                return LootWindowChange::Remove;
            },
        };
        let items: &Vec<ItemStack> = &containers[at].items;
        let mut rows: Vec<LootRow> = Vec::new();
        let mut i: usize = 0;
        while i < items.len()
            invariant
                i <= items@.len(),
                rows@.len() == i,
                forall|k: int|
                    0 <= k < i ==> (#[trigger] rows@[k]).text@ == loot_text(items@[k]) && rows@[k].rarity
                        == items@[k].rarity && rows@[k].slot == (LootSlot {
                        source_entity: target,
                        item_index: k as usize,
                    }),
            decreases items@.len() - i,
        {
            let mut text: String = items[i].name.clone();
            text.append(" x");
            append_decimal(&mut text, items[i].quantity as u64);
            rows.push(
                LootRow {
                    text,
                    rarity: items[i].rarity,
                    slot: LootSlot { source_entity: target, item_index: i },
                },
            );
            i = i + 1;
        }
        self.prev_loot_target = Some(target);
        assert(shows_loot(rows@, target, containers@[at as int].items@));
        LootWindowChange::Replace(LootWindowView { pos: self.last_right_click_pos, rows })
    }

    /// Clicks on rows of the loot window and on its close button: each row clicked is a transfer, after which the
    /// window is built anew; the close button clears the target.
    pub fn loot_slot_click(&mut self, pressed: &Vec<LootSlot>, close_pressed: bool) -> (transfers: Vec<LootSlot>)
        ensures
            transfers@ == pressed@,
            *final(self) == old(self).after_clicks(pressed@, close_pressed),
    {
        let mut transfers: Vec<LootSlot> = Vec::new();
        let mut i: usize = 0;
        while i < pressed.len()
            invariant
                i <= pressed@.len(),
                transfers@ == pressed@.take(i as int),
                self.prev_loot_target == if i > 0 { None } else { old(self).prev_loot_target },
                self.loot_target == old(self).loot_target,
                self.inventory_open == old(self).inventory_open,
                self.last_right_click_pos == old(self).last_right_click_pos,
            decreases pressed@.len() - i,
        {
            transfers.push(pressed[i]);
            self.prev_loot_target = None;
            assert(transfers@ =~= pressed@.take(i + 1));
            i = i + 1;
        }
        assert(pressed@.take(i as int) =~= pressed@);
        if close_pressed {
            self.loot_target = None;
        }
        transfers
    }

    /// Containers that were emptied: those that are still there are removed, and the loot window of
    /// one of them is closed.
    pub fn empty_containers(&mut self, emptied: &Vec<u64>, containers: &Vec<Lootable>) -> (removed: Vec<u64>)
        ensures
            removed@ == emptied@.filter(|e: u64| has_container(containers@, e)),
            *final(self) == old(self).after_emptied(emptied@),
    {
        let mut removed: Vec<u64> = Vec::new();
        let mut i: usize = 0;
        let ghost p = |e: u64| has_container(containers@, e);
        proof {
            reveal(Seq::filter);
            assert(emptied@.take(0).filter(p) =~= Seq::empty());
        }
        while i < emptied.len()
            invariant
                i <= emptied@.len(),
                p == (|e: u64| has_container(containers@, e)),
                removed@ == emptied@.take(i as int).filter(p),
                self.loot_target == if old(self).loot_target is Some && emptied@.take(i as int).contains(
                    old(self).loot_target->0,
                ) {
                    None
                } else {
                    old(self).loot_target
                },
                self.prev_loot_target == old(self).prev_loot_target,
                self.inventory_open == old(self).inventory_open,
                self.last_right_click_pos == old(self).last_right_click_pos,
            decreases emptied@.len() - i,
        {
            let e: u64 = emptied[i];
            let ghost head = emptied@.take(i as int);
            let ghost more = emptied@.take(i + 1);
            proof {
                reveal(Seq::filter);
                assert(more.drop_last() =~= head);
                assert(more.last() == e);
                assert forall|x: u64| more.contains(x) <==> head.contains(x) || x == e by {
                    if head.contains(x) {
                        let k = choose|k: int| 0 <= k < head.len() && head[k] == x;
                        assert(more[k] == x);
                    }
                    if x == e {
                        assert(more[i as int] == x);
                    }
                    if more.contains(x) {
                        let k = choose|k: int| 0 <= k < more.len() && more[k] == x;
                        if k < i {
                            assert(head[k] == x);
                        }
                    }
                }
            }
            if let Some(_) = find_container(containers, e) {
                removed.push(e);
            }
            if let Some(t) = self.loot_target {
                if t == e {
                    self.loot_target = None;
                }
            }
            i = i + 1;
        }
        assert(emptied@.take(i as int) =~= emptied@);
        removed
    }
}

/// A loot window is built once per target: the one that was built stays, until a row is clicked, another target
/// picked or the window closed.
pub proof fn law_loot_window_settles(
    before: InventoryUiState,
    after: InventoryUiState,
    window_present: bool,
    containers: Seq<Lootable>,
)
    requires
        before.loot_shown(containers),
        !before.loot_settled(window_present),
        after.loot_target == before.loot_target,
        after.prev_loot_target == before.loot_target,
    ensures
        after.loot_settled(true),
{
}

/// The inventory panel, where none is there already.
pub fn spawn_inventory_panel(panel_present: bool, items: &Vec<ItemStack>, gold: u64, max_slots: usize) -> (r: Option<
    InventoryPanelView,
>)
    ensures
        r is Some == !panel_present,
        r matches Some(p) ==> p.gold@ == "Gold: "@ + decimal(gold as nat) && p.slots@.len() == max_slots && (
        forall|i: int| 0 <= i < max_slots ==> shows_slot(#[trigger] p.slots@[i], items@, i)),
{
    if panel_present {
        return None;
    }
    let mut text: String = String::from_str("Gold: ");
    append_decimal(&mut text, gold);
    let mut slots: Vec<SlotView> = Vec::new();
    let mut i: usize = 0;
    while i < max_slots
        invariant
            i <= max_slots,
            slots@.len() == i,
            forall|k: int| 0 <= k < i ==> shows_slot(#[trigger] slots@[k], items@, k),
        decreases max_slots - i,
    {
        if i < items.len() {
            let mut quantity: String = String::from_str("x");
            append_decimal(&mut quantity, items[i].quantity as u64);
            let label: String = truncate_str(items[i].name.as_str(), 5);
            let slot: SlotView = SlotView::Item { label, quantity, rarity: items[i].rarity };
            assert(shows_slot(slot, items@, i as int));
            slots.push(slot);
        } else {
            slots.push(SlotView::Empty);
        }
        i = i + 1;
    }
    Some(InventoryPanelView { gold: text, slots })
}

/// The text of a stack in a tooltip.
pub open spec fn tooltip_text(item: ItemStack) -> Seq<char> {
    item.name@ + " (x"@ + decimal(item.quantity as nat) + ")\n"@ + rarity_label(item.rarity) + " | Lv"@ + decimal(
        item.level_requirement as nat,
    )
}

fn describe(item: &ItemStack) -> (s: String)
    ensures
        s@ == tooltip_text(*item),
{
    let mut s: String = item.name.clone();
    s.append(" (x");
    append_decimal(&mut s, item.quantity as u64);
    s.append(")\n");
    s.append(item_rarity_label(&item.rarity));
    s.append(" | Lv");
    append_decimal(&mut s, item.level_requirement as u64);
    s
}

/// The stack that the last of the first `n` hovered inventory slots shows.
pub open spec fn hovered_item(items: Seq<ItemStack>, hovered: Seq<usize>, n: nat) -> Option<ItemStack>
    decreases n,
{
    if n == 0 {
        None
    } else if hovered[n - 1] < items.len() {
        Some(items[hovered[n - 1] as int])
    } else {
        hovered_item(items, hovered, (n - 1) as nat)
    }
}

/// The stack of a row of the loot window, where its container is there and has it.
pub open spec fn loot_item(containers: Seq<Lootable>, slot: LootSlot) -> Option<ItemStack> {
    if has_container(containers, slot.source_entity) {
        let k = choose|k: int| #[trigger] container_at(containers, slot.source_entity, k);
        if slot.item_index < containers[k].items@.len() {
            Some(containers[k].items@[slot.item_index as int])
        } else {
            None
        }
    } else {
        None
    }
}

/// The stack that the last of the first `n` hovered rows shows, or else `base`.
pub open spec fn hovered_loot(
    containers: Seq<Lootable>,
    hovered: Seq<LootSlot>,
    n: nat,
    base: Option<ItemStack>,
) -> Option<ItemStack>
    decreases n,
{
    if n == 0 {
        base
    } else {
        match loot_item(containers, hovered[n - 1]) {
            Some(i) => Some(i),
            None => hovered_loot(containers, hovered, (n - 1) as nat, base),
        }
    }
}

/// The tooltip, if there is one: of the last hovered row that shows a stack, or else of the last hovered inventory
/// slot that does.
pub fn handle_tooltip(
    items: &Vec<ItemStack>,
    hovered_slots: &Vec<usize>,
    containers: &Vec<Lootable>,
    hovered_rows: &Vec<LootSlot>,
) -> (r: Option<(String, Rarity)>)
    ensures
        ({
            let base = hovered_item(items@, hovered_slots@, hovered_slots@.len());
            match hovered_loot(containers@, hovered_rows@, hovered_rows@.len(), base) {
                None => r is None,
                Some(i) => r matches Some((text, rarity)) && text@ == tooltip_text(i) && rarity == i.rarity,
            }
        }),
{
    let mut found: Option<&ItemStack> = None;
    let mut i: usize = 0;
    while i < hovered_slots.len()
        invariant
            i <= hovered_slots@.len(),
            (match found {
                Some(f) => Some(*f),
                None => None,
            }) == hovered_item(items@, hovered_slots@, i as nat),
        decreases hovered_slots@.len() - i,
    {
        let k: usize = hovered_slots[i];
        if k < items.len() {
            found = Some(&items[k]);
        }
        i = i + 1;
    }
    let ghost base = hovered_item(items@, hovered_slots@, hovered_slots@.len());
    let mut j: usize = 0;
    while j < hovered_rows.len()
        invariant
            j <= hovered_rows@.len(),
            (match found {
                Some(f) => Some(*f),
                None => None,
            }) == hovered_loot(containers@, hovered_rows@, j as nat, base),
        decreases hovered_rows@.len() - j,
    {
        let slot: LootSlot = hovered_rows[j];
        if let Some(k) = find_container(containers, slot.source_entity) {
            proof {
                let c = choose|c: int| #[trigger] container_at(containers@, slot.source_entity, c);
                lemma_one_container(containers@, slot.source_entity, c, k as int);
            }
            if slot.item_index < containers[k].items.len() {
                found = Some(&containers[k].items[slot.item_index]);
            }
        }
        j = j + 1;
    }
    match found {
        Some(f) => Some((describe(f), f.rarity)),
        None => None,
    }
}

proof fn lemma_one_container(list: Seq<Lootable>, entity: u64, a: int, b: int)
    requires
        container_at(list, entity, a),
        container_at(list, entity, b),
    ensures
        a == b,
{
    if a < b {
        assert(list[a].entity != entity);
    }
    if b < a {
        assert(list[b].entity != entity);
    }
}

/// The window that is dragged from now on.
pub open spec fn dragged(
    before: Option<u64>,
    button_down: bool,
    inventory_title_pressed: bool,
    inventory_panel: Option<u64>,
    loot_title_pressed: bool,
    loot_window: Option<u64>,
) -> Option<u64> {
    let held = if button_down {
        before
    } else {
        None
    };
    let first = if held is None && inventory_title_pressed {
        inventory_panel
    } else {
        held
    };
    if first is None && loot_title_pressed {
        loot_window
    } else {
        first
    }
}

impl WindowDragState {
    /// Which window is dragged: none once the button is up; a title bar that is pressed while none is dragged
    /// starts its window, the inventory's before the loot window's.
    pub fn track(
        &mut self,
        button_down: bool,
        inventory_title_pressed: bool,
        inventory_panel: Option<u64>,
        loot_title_pressed: bool,
        loot_window: Option<u64>,
    )
        ensures
            final(self).offset == old(self).offset,
            final(self).dragging == dragged(
                old(self).dragging,
                button_down,
                inventory_title_pressed,
                inventory_panel,
                loot_title_pressed,
                loot_window,
            ),
    {
        if !button_down {
            self.dragging = None;
        }
        if inventory_title_pressed && self.dragging.is_none() {
            self.dragging = inventory_panel;
        }
        if loot_title_pressed && self.dragging.is_none() {
            self.dragging = loot_window;
        }
    }
}

/// The shape of the cursor.
#[derive(Clone, Copy, Debug, PartialEq, Eq, Structural)]
pub enum CursorShape {
    Default,
    Pointer,
}

/// The shape that the cursor is to have, where it changes.
pub open spec fn cursor_shape(inside: bool, over_lootable: Option<bool>) -> Option<CursorShape> {
    if !inside {
        Some(CursorShape::Default)
    } else {
        match over_lootable {
            None => None,
            Some(true) => Some(CursorShape::Pointer),
            Some(false) => Some(CursorShape::Default),
        }
    }
}

/// The shape the cursor gets, if it is to change: outside the window the default one; inside it, what lies under it
/// decides, where that can be told.
pub fn lootable_cursor(inside: bool, over_lootable: Option<bool>) -> (r: Option<CursorShape>)
    ensures
        r == cursor_shape(inside, over_lootable),
{
    if !inside {
        return Some(CursorShape::Default);
    }
    match over_lootable {
        None => None,
        Some(over) => if over {
            Some(CursorShape::Pointer)
        } else {
            Some(CursorShape::Default)
        },
    }
}

/// The names of the rarities.
pub proof fn law_rarity_names()
    ensures
        rarity_label(Rarity::Common) == "Common"@,
        rarity_label(Rarity::Uncommon) == "Uncommon"@,
        rarity_label(Rarity::Rare) == "Rare"@,
        rarity_label(Rarity::Epic) == "Epic"@,
        rarity_label(Rarity::Legendary) == "Legendary"@,
{
}

/// A text takes as many bytes as its characters together: one for each up to 127, two up to 2047, three up to 65535, and
/// four for any other. So a text of ASCII takes as many bytes as it has characters.
pub proof fn law_text_bytes(s: Seq<char>, c: char)
    ensures
        text_bytes(Seq::empty()) == 0,
        c as u32 <= 127 ==> text_bytes(s.push(c)) == text_bytes(s) + 1,
        128 <= c as u32 <= 2047 ==> text_bytes(s.push(c)) == text_bytes(s) + 2,
        2048 <= c as u32 <= 65535 ==> text_bytes(s.push(c)) == text_bytes(s) + 3,
        65536 <= c as u32 ==> text_bytes(s.push(c)) == text_bytes(s) + 4,
        (forall|i: int| 0 <= i < s.len() ==> #[trigger] s[i] as u32 <= 127) ==> text_bytes(s) == s.len(),
    decreases s.len(),
{
    assert(s.push(c).drop_last() =~= s);
    if s.len() > 0 {
        law_text_bytes(s.drop_last(), c);
        assert(s[s.len() - 1] == s.last());
        if forall|i: int| 0 <= i < s.len() ==> #[trigger] s[i] as u32 <= 127 {
            assert forall|i: int| 0 <= i < s.drop_last().len() implies #[trigger] s.drop_last()[i] as u32 <= 127 by {
                assert(s.drop_last()[i] == s[i]);
            }
        }
    }
}

/// A text is cut to the longest of its beginnings that fits: no longer one does, and of two that were cut, that for the
/// greater width is the longer.
pub proof fn law_longest_beginning(s: Seq<char>, max: nat, k: int, j: int, more: nat, l: int)
    requires
        is_longest(s, max, k),
        0 <= j <= s.len(),
        max <= more,
        is_longest(s, more, l),
    ensures
        j <= k <==> text_bytes(s.take(j)) <= max,
        k <= l,
{
    if j <= k {
        lemma_bytes_grow(s, j, k);
    } else {
        lemma_bytes_grow(s, k + 1, j);
    }
    if l < k {
        lemma_bytes_grow(s, l + 1, k);
    }
}

/// The inventory key turns the inventory over and leaves the rest, but that closing it also ends the loot. Pressed twice
/// on a closed inventory, it only ends the loot.
pub proof fn law_inventory_key(s: InventoryUiState)
    ensures
        s.after_key(false) == s,
        s.after_key(true).inventory_open == !s.inventory_open,
        s.inventory_open ==> s.after_key(true).loot_target is None,
        !s.inventory_open ==> s.after_key(true).loot_target == s.loot_target,
        s.after_key(true).prev_loot_target == s.prev_loot_target,
        s.after_key(true).last_right_click_pos == s.last_right_click_pos,
        !s.inventory_open ==> s.after_key(true).after_key(true) == (InventoryUiState { loot_target: None, ..s }),
{
}

/// A right click on a container makes it the target and keeps the place; one on none changes nothing.
pub proof fn law_right_click(s: InventoryUiState, e: u64, pos: [u32; 2])
    ensures
        s.after_pick(None, pos) == s,
        s.after_pick(Some(e), pos).loot_target == Some(e),
        s.after_pick(Some(e), pos).last_right_click_pos == pos,
        s.after_pick(Some(e), pos).inventory_open == s.inventory_open,
        s.after_pick(Some(e), pos).prev_loot_target == s.prev_loot_target,
{
}

/// A click on a row has the window built anew and leaves the target; the close button ends the loot and leaves the rest;
/// without either nothing changes.
pub proof fn law_loot_clicks(s: InventoryUiState, rows: Seq<LootSlot>)
    requires
        rows.len() > 0,
    ensures
        s.after_clicks(Seq::empty(), false) == s,
        !s.after_clicks(rows, false).loot_settled(true),
        s.after_clicks(rows, false).loot_target == s.loot_target,
        s.after_clicks(rows, true).loot_target is None,
        s.after_clicks(Seq::empty(), true).loot_target is None,
        s.after_clicks(Seq::empty(), true).prev_loot_target == s.prev_loot_target,
        s.after_clicks(rows, true).inventory_open == s.inventory_open,
        s.after_clicks(rows, true).last_right_click_pos == s.last_right_click_pos,
{
}

/// The loot of a container that was emptied ends, and no other.
pub proof fn law_emptied_containers(s: InventoryUiState, emptied: Seq<u64>)
    ensures
        s.loot_target matches Some(t) ==> (s.after_emptied(emptied).loot_target is None <==> exists|i: int|
            0 <= i < emptied.len() && #[trigger] emptied[i] == t),
        s.after_emptied(emptied).loot_target is Some ==> s.after_emptied(emptied).loot_target == s.loot_target,
        s.after_emptied(emptied).prev_loot_target == s.prev_loot_target,
        s.after_emptied(emptied).inventory_open == s.inventory_open,
        s.after_emptied(emptied).last_right_click_pos == s.last_right_click_pos,
{
    if let Some(t) = s.loot_target {
        if emptied.contains(t) {
            let i = choose|i: int| 0 <= i < emptied.len() && emptied[i] == t;
            assert(emptied[i] == t);
        }
    }
}

/// The rows of a loot window: one for each thing in the container, in order, that names it and its number, has its
/// rarity, and takes that very thing when it is clicked.
pub proof fn law_loot_rows(rows: Seq<LootRow>, target: u64, items: Seq<ItemStack>, i: int)
    requires
        shows_loot(rows, target, items),
        0 <= i < items.len() <= usize::MAX,
    ensures
        rows.len() == items.len(),
        rows[i].text@ == items[i].name@ + " x"@ + decimal(items[i].quantity as nat),
        rows[i].rarity == items[i].rarity,
        rows[i].slot.source_entity == target,
        rows[i].slot.item_index == i,
{
}

/// A slot of the inventory shows the thing that is in it: the beginning of its name that takes five bytes, its number and
/// its rarity. It is empty where there is no thing.
pub proof fn law_inventory_slots(v: SlotView, items: Seq<ItemStack>, i: int)
    requires
        shows_slot(v, items, i),
        0 <= i,
    ensures
        v is Empty <==> i >= items.len(),
        v matches SlotView::Item { label, quantity, rarity } ==> {
            &&& text_bytes(label@) <= 5
            &&& exists|k: int| 0 <= k <= items[i].name@.len() && label@ == #[trigger] items[i].name@.take(k)
            &&& text_bytes(items[i].name@) <= 5 ==> label@ == items[i].name@
            &&& quantity@ == "x"@ + decimal(items[i].quantity as nat)
            &&& rarity == items[i].rarity
        },
{
    if let SlotView::Item { label, quantity, rarity } = v {
        let k = choose|k: int| #[trigger] is_longest(items[i].name@, 5, k) && label@ == items[i].name@.take(k);
        law_truncation(items[i].name@, 5, k);
        assert(label@ == items[i].name@.take(k));
    }
}

/// What a tooltip says.
pub proof fn law_tooltip_text(item: ItemStack)
    ensures
        tooltip_text(item) == item.name@ + " (x"@ + decimal(item.quantity as nat) + ")\n"@ + rarity_label(item.rarity)
            + " | Lv"@ + decimal(item.level_requirement as nat),
{
}

/// The tooltip is of the last of the hovered slots that has a thing in it, and of none where none has.
pub proof fn law_last_hovered_slot(items: Seq<ItemStack>, hovered: Seq<usize>, n: nat, i: int)
    requires
        n <= hovered.len(),
    ensures
        0 <= i < n && hovered[i] < items.len() && (forall|j: int| i < j < n ==> #[trigger] hovered[j] >= items.len())
            ==> hovered_item(items, hovered, n) == Some(items[hovered[i] as int]),
        (forall|j: int| 0 <= j < n ==> #[trigger] hovered[j] >= items.len()) ==> hovered_item(items, hovered, n) is None,
    decreases n,
{
    if n > 0 {
        law_last_hovered_slot(items, hovered, (n - 1) as nat, i);
        if 0 <= i < n - 1 && (forall|j: int| i < j < n ==> #[trigger] hovered[j] >= items.len()) {
            assert(hovered[n - 1] >= items.len());
        }
    }
}

/// A row of the loot window is of the thing at its place in the first container of its entity.
pub proof fn law_loot_item(containers: Seq<Lootable>, slot: LootSlot, k: int)
    requires
        0 <= k < containers.len(),
        containers[k].entity == slot.source_entity,
        forall|i: int| 0 <= i < k ==> (#[trigger] containers[i]).entity != slot.source_entity,
    ensures
        slot.item_index < containers[k].items@.len() ==> loot_item(containers, slot) == Some(
            containers[k].items@[slot.item_index as int],
        ),
        slot.item_index >= containers[k].items@.len() ==> loot_item(containers, slot) is None,
{
    assert(container_at(containers, slot.source_entity, k));
    let c = choose|c: int| #[trigger] container_at(containers, slot.source_entity, c);
    lemma_one_container(containers, slot.source_entity, c, k);
}

/// A row of no container is of nothing.
pub proof fn law_no_loot_item(containers: Seq<Lootable>, slot: LootSlot)
    requires
        forall|i: int| 0 <= i < containers.len() ==> (#[trigger] containers[i]).entity != slot.source_entity,
    ensures
        loot_item(containers, slot) is None,
{
}

/// The tooltip is of the last hovered row of the loot window that is of a thing; where none is, of the inventory's.
pub proof fn law_last_hovered_row(
    containers: Seq<Lootable>,
    hovered: Seq<LootSlot>,
    n: nat,
    base: Option<ItemStack>,
    i: int,
)
    requires
        n <= hovered.len(),
    ensures
        0 <= i < n && loot_item(containers, hovered[i]) is Some && (forall|j: int|
            i < j < n ==> loot_item(containers, #[trigger] hovered[j]) is None) ==> hovered_loot(
            containers,
            hovered,
            n,
            base,
        ) == loot_item(containers, hovered[i]),
        (forall|j: int| 0 <= j < n ==> loot_item(containers, #[trigger] hovered[j]) is None) ==> hovered_loot(
            containers,
            hovered,
            n,
            base,
        ) == base,
    decreases n,
{
    if n > 0 {
        law_last_hovered_row(containers, hovered, (n - 1) as nat, base, i);
        if 0 <= i < n - 1 && (forall|j: int| i < j < n ==> loot_item(containers, #[trigger] hovered[j]) is None) {
            assert(loot_item(containers, hovered[n - 1]) is None);
        }
    }
}

/// Dragging ends with the button up. A window that is dragged stays the one while the button is down. Where none is, the
/// inventory begins to be dragged by its title, and if it does not, the loot window by its own.
pub proof fn law_dragging(
    before: Option<u64>,
    down: bool,
    inventory_title: bool,
    inventory: Option<u64>,
    loot_title: bool,
    loot: Option<u64>,
)
    ensures
        dragged(before, false, false, inventory, false, loot) is None,
        down && before is Some ==> dragged(before, down, inventory_title, inventory, loot_title, loot) == before,
        !(down && before is Some) && inventory_title && inventory is Some ==> dragged(
            before,
            down,
            inventory_title,
            inventory,
            loot_title,
            loot,
        ) == inventory,
        !(down && before is Some) && !(inventory_title && inventory is Some) && loot_title ==> dragged(
            before,
            down,
            inventory_title,
            inventory,
            loot_title,
            loot,
        ) == loot,
        !(down && before is Some) && !(inventory_title && inventory is Some) && !loot_title ==> dragged(
            before,
            down,
            inventory_title,
            inventory,
            loot_title,
            loot,
        ) is None,
{
}

/// The cursor points just over a container inside the window, and is left alone where what is under it cannot be told.
pub proof fn law_cursor(inside: bool, over: Option<bool>)
    ensures
        cursor_shape(inside, over) == Some(CursorShape::Pointer) <==> inside && over == Some(true),
        cursor_shape(inside, over) is None <==> inside && over is None,
        cursor_shape(inside, over) == Some(CursorShape::Default) <==> !inside || over == Some(false),
{
}

/// The loot window stays where it is there and was built for the target. There is something to show where the target is one
/// of the containers.
pub proof fn law_when_loot_is_shown(s: InventoryUiState, containers: Seq<Lootable>, t: u64, window_present: bool)
    requires
        s.loot_target == Some(t),
    ensures
        s.loot_settled(window_present) <==> window_present && s.prev_loot_target == Some(t),
        s.loot_shown(containers) <==> exists|i: int| 0 <= i < containers.len() && (#[trigger] containers[i]).entity == t,
{
    if exists|i: int| 0 <= i < containers.len() && (#[trigger] containers[i]).entity == t {
        let i = choose|i: int| 0 <= i < containers.len() && (#[trigger] containers[i]).entity == t;
        lemma_first_container(containers, t, i);
    }
}

proof fn lemma_first_container(containers: Seq<Lootable>, entity: u64, i: int)
    requires
        0 <= i < containers.len(),
        containers[i].entity == entity,
    ensures
        has_container(containers, entity),
    decreases i,
{
    if exists|j: int| 0 <= j < i && (#[trigger] containers[j]).entity == entity {
        let j = choose|j: int| 0 <= j < i && (#[trigger] containers[j]).entity == entity;
        lemma_first_container(containers, entity, j);
    } else {
        assert(container_at(containers, entity, i));
    }
}

/// Without a target there is nothing to show and nothing to stay.
pub proof fn law_no_loot_without_a_target(s: InventoryUiState, containers: Seq<Lootable>, window_present: bool)
    requires
        s.loot_target is None,
    ensures
        !s.loot_settled(window_present),
        !s.loot_shown(containers),
{
}

} // verus!
