use adventure::ui::{
    handle_tooltip, item_rarity_label, lootable_cursor, spawn_inventory_panel, truncate_str, CursorShape,
    InventoryUiState, ItemStack, LootSlot, LootWindowChange, LootWindowView, Lootable, Rarity, SlotView, WindowDragState,
};

fn built(change: LootWindowChange) -> LootWindowView {
    match change {
        LootWindowChange::Replace(w) => w,
        other => panic!("no window is built: {other:?}"),
    }
}

fn stack(name: &str, rarity: Rarity, level: u32, quantity: u32) -> ItemStack {
    ItemStack { name: name.into(), rarity, level_requirement: level, quantity }
}

fn chest() -> Lootable {
    Lootable {
        entity: 7,
        items: vec![stack("Rusty Longsword", Rarity::Common, 1, 1), stack("Gem", Rarity::Epic, 12, 30)],
    }
}

#[test]
fn inventory_ui_state_defaults() {
    let state = InventoryUiState::default();
    assert!(!state.inventory_open);
    assert!(state.loot_target.is_none());
    assert_eq!(state.last_right_click_pos, [0.0f32.to_bits(); 2]);
    assert!(state.prev_loot_target.is_none());
}

#[test]
fn window_drag_state_defaults() {
    let state = WindowDragState::default();
    assert!(state.dragging.is_none());
    assert_eq!(state.offset, [0.0f32.to_bits(); 2]);
}

#[test]
fn truncate_str_short() {
    assert_eq!(truncate_str("Sword", 5), "Sword");
}

#[test]
fn truncate_str_long() {
    assert!(truncate_str("Rusty Longsword", 5).len() <= 5);
    assert_eq!(truncate_str("Rusty Longsword", 5), "Rusty");
}

#[test]
fn truncation_keeps_whole_characters() {
    assert_eq!(truncate_str("éé!", 3), "é");
    assert_eq!(truncate_str("éé!", 4), "éé");
    assert_eq!(truncate_str("a漢字", 5), "a漢");
    assert_eq!(truncate_str("😀x", 3), "");
    assert_eq!(truncate_str("", 0), "");
    for n in 0..20 {
        let s = "aé漢😀zé漢😀";
        assert_eq!(truncate_str(s, n), s[..(0..=n.min(s.len())).rev().find(|&k| s.is_char_boundary(k)).unwrap()]);
    }
}

#[test]
fn item_rarity_labels() {
    assert_eq!(item_rarity_label(&Rarity::Common), "Common");
    assert_eq!(item_rarity_label(&Rarity::Uncommon), "Uncommon");
    assert_eq!(item_rarity_label(&Rarity::Rare), "Rare");
    assert_eq!(item_rarity_label(&Rarity::Epic), "Epic");
    assert_eq!(item_rarity_label(&Rarity::Legendary), "Legendary");
}

#[test]
fn closing_the_inventory_closes_the_loot_window() {
    let mut s = InventoryUiState::default();
    s.right_click_pick(Some(7), [1, 2]);
    s.toggle_inventory(false);
    assert!(!s.inventory_open);
    s.toggle_inventory(true);
    assert!(s.inventory_open);
    assert_eq!(s.loot_target, Some(7));
    s.toggle_inventory(true);
    assert!(!s.inventory_open);
    assert_eq!(s.loot_target, None);
}

#[test]
fn a_click_on_nothing_keeps_the_target() {
    let mut s = InventoryUiState::default();
    s.right_click_pick(Some(7), [1, 2]);
    s.right_click_pick(None, [9, 9]);
    assert_eq!((s.loot_target, s.last_right_click_pos), (Some(7), [1, 2]));
}

#[test]
fn the_loot_window_is_built_once_and_again_after_a_click() {
    let world = vec![chest()];
    let mut s = InventoryUiState::default();
    assert!(matches!(s.spawn_loot_window(false, &world), LootWindowChange::Remove));
    s.right_click_pick(Some(7), [3, 4]);
    let w = built(s.spawn_loot_window(false, &world));
    assert_eq!(w.pos, [3, 4]);
    assert_eq!(w.rows[0].text, "Rusty Longsword x1");
    assert_eq!(w.rows[1].text, "Gem x30");
    assert_eq!(w.rows[1].rarity, Rarity::Epic);
    assert_eq!(w.rows[1].slot, LootSlot { source_entity: 7, item_index: 1 });
    assert!(matches!(s.spawn_loot_window(true, &world), LootWindowChange::Keep), "the target has not changed");
    let slot = w.rows[0].slot;
    assert_eq!(s.loot_slot_click(&vec![slot], false), vec![slot]);
    assert_eq!(built(s.spawn_loot_window(true, &world)).rows.len(), 2, "a click has it built anew");
    assert!(s.loot_slot_click(&vec![], true).is_empty());
    assert_eq!(s.loot_target, None);
    s.right_click_pick(Some(8), [0, 0]);
    assert!(matches!(s.spawn_loot_window(true, &world), LootWindowChange::Remove), "no such container");
    s.right_click_pick(Some(7), [5, 6]);
    assert_eq!(built(s.spawn_loot_window(false, &world)).pos, [5, 6], "picked again after it was closed");
}

#[test]
fn an_emptied_container_is_removed_and_its_window_closed() {
    let world = vec![chest()];
    let mut s = InventoryUiState::default();
    s.right_click_pick(Some(7), [0, 0]);
    assert_eq!(s.empty_containers(&vec![5], &world), vec![]);
    assert_eq!(s.loot_target, Some(7));
    assert_eq!(s.empty_containers(&vec![5, 7], &world), vec![7]);
    assert_eq!(s.loot_target, None);
}

#[test]
fn the_inventory_panel_shows_every_slot() {
    let items = vec![stack("Rusty Longsword", Rarity::Rare, 3, 2)];
    assert!(spawn_inventory_panel(true, &items, 5, 3).is_none());
    let p = spawn_inventory_panel(false, &items, 1234, 3).unwrap();
    assert_eq!(p.gold, "Gold: 1234");
    assert_eq!(p.slots.len(), 3);
    match &p.slots[0] {
        SlotView::Item { label, quantity, rarity } => {
            assert_eq!((label.as_str(), quantity.as_str(), *rarity), ("Rusty", "x2", Rarity::Rare));
        }
        SlotView::Empty => panic!("the first slot holds an item"),
    }
    assert!(matches!(p.slots[1], SlotView::Empty) && matches!(p.slots[2], SlotView::Empty));
}

#[test]
fn the_last_hovered_row_wins_the_tooltip() {
    let items = vec![stack("Apple", Rarity::Common, 1, 4), stack("Ring", Rarity::Legendary, 60, 1)];
    let world = vec![chest()];
    let at = |i: usize| LootSlot { source_entity: 7, item_index: i };
    assert!(handle_tooltip(&items, &vec![], &world, &vec![]).is_none());
    assert!(handle_tooltip(&items, &vec![5], &world, &vec![at(9)]).is_none());
    let (text, rarity) = handle_tooltip(&items, &vec![0, 1, 9], &world, &vec![]).unwrap();
    assert_eq!((text.as_str(), rarity), ("Ring (x1)\nLegendary | Lv60", Rarity::Legendary));
    let (text, rarity) = handle_tooltip(&items, &vec![0], &world, &vec![at(1), at(2)]).unwrap();
    assert_eq!((text.as_str(), rarity), ("Gem (x30)\nEpic | Lv12", Rarity::Epic));
}

#[test]
fn a_window_is_dragged_until_the_button_is_up() {
    let mut d = WindowDragState::default();
    d.track(true, true, Some(1), true, Some(2));
    assert_eq!(d.dragging, Some(1), "the inventory's title bar comes first");
    d.track(true, false, Some(1), true, Some(2));
    assert_eq!(d.dragging, Some(1), "a drag is not taken over");
    d.track(false, false, Some(1), false, Some(2));
    assert_eq!(d.dragging, None);
    d.track(true, true, None, true, Some(2));
    assert_eq!(d.dragging, Some(2));
}

#[test]
fn the_cursor_points_at_loot() {
    assert_eq!(lootable_cursor(false, Some(true)), Some(CursorShape::Default));
    assert_eq!(lootable_cursor(true, None), None);
    assert_eq!(lootable_cursor(true, Some(true)), Some(CursorShape::Pointer));
    assert_eq!(lootable_cursor(true, Some(false)), Some(CursorShape::Default));
}
