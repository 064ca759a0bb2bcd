use torus::inventory::pick_up_items_fit;
use torus::inventory::{hotbar_logic, keyboard_number, pick_up_items, DroppedItem, Item, INVENTORY_SLOTS};

fn item(item_type_id: usize, amount: u32) -> Item {
    Item { item_type_id, amount }
}

fn dropped(tag: &'static str, item_type_id: usize) -> DroppedItem<&'static str> {
    DroppedItem { entity: tag, item: item(item_type_id, 1) }
}

#[test]
fn touched_items_are_stashed_and_leave_the_world() {
    let mut inventory: [Option<Item>; INVENTORY_SLOTS] = [None; INVENTORY_SLOTS];
    inventory[0] = Some(item(1, 5));
    let mut world = vec![dropped("a", 1), dropped("b", 2), dropped("c", 3), dropped("d", 2)];
    let touched = vec![true, true, false, true];
    pick_up_items(&mut inventory, &mut world, &touched);
    assert_eq!(inventory[0], Some(item(1, 6)));
    assert_eq!(inventory[1], Some(item(2, 2)));
    assert_eq!(inventory[2], None);
    assert_eq!(world.len(), 1);
    assert_eq!(world[0].entity, "c");
}

#[test]
fn first_empty_or_matching_slot_wins() {
    let mut inventory: [Option<Item>; INVENTORY_SLOTS] = [None; INVENTORY_SLOTS];
    inventory[1] = Some(item(7, 3));
    let mut world = vec![DroppedItem { entity: 0u8, item: item(7, 4) }];
    pick_up_items(&mut inventory, &mut world, &vec![true]);
    // slot 0 is empty and comes first, so the whole stack lands there
    assert_eq!(inventory[0], Some(item(7, 4)));
    assert_eq!(inventory[1], Some(item(7, 3)));
    assert!(world.is_empty());
}

#[test]
fn a_full_inventory_loses_the_item() {
    let mut inventory: [Option<Item>; INVENTORY_SLOTS] = [Some(item(9, 1)); INVENTORY_SLOTS];
    let mut world = vec![dropped("x", 4), dropped("y", 4)];
    pick_up_items(&mut inventory, &mut world, &vec![true, false]);
    assert!(inventory.iter().all(|s| *s == Some(item(9, 1))));
    assert_eq!(world.len(), 1);
    assert_eq!(world[0].entity, "y");
}

#[test]
fn nothing_touched_changes_nothing() {
    let mut inventory: [Option<Item>; INVENTORY_SLOTS] = [None; INVENTORY_SLOTS];
    inventory[10] = Some(item(0, 2));
    let before = inventory;
    let mut world = vec![dropped("a", 0), dropped("b", 1)];
    pick_up_items(&mut inventory, &mut world, &vec![false, false]);
    assert_eq!(inventory, before);
    assert_eq!(world.len(), 2);
}

#[test]
fn hotbar_selection() {
    let mut inventory: [Option<Item>; INVENTORY_SLOTS] = [None; INVENTORY_SLOTS];
    inventory[10] = Some(item(0, 2));
    assert_eq!(hotbar_logic(&inventory, 10), Some(item(0, 2)));
    assert_eq!(hotbar_logic(&inventory, 1), None);
    assert_eq!(hotbar_logic(&inventory, 49), None);
}

#[test]
fn digit_keys_pick_hotbar_slots() {
    let mut pressed = [false; 10];
    assert_eq!(keyboard_number(&pressed), None);
    pressed[0] = true;
    assert_eq!(keyboard_number(&pressed), Some(9));
    pressed[4] = true;
    assert_eq!(keyboard_number(&pressed), Some(3));
    pressed[1] = true;
    assert_eq!(keyboard_number(&pressed), Some(0));
    let mut only_nine = [false; 10];
    only_nine[9] = true;
    assert_eq!(keyboard_number(&only_nine), Some(8));
}

#[test]
fn pickup_overflow_is_detected() {
    let mut inventory: [Option<Item>; INVENTORY_SLOTS] = [None; INVENTORY_SLOTS];
    inventory[0] = Some(item(1, u32::MAX - 1));
    let world = vec![dropped("a", 1), dropped("b", 1)];
    assert!(pick_up_items_fit(&inventory, &world, &vec![true, false]));
    assert!(!pick_up_items_fit(&inventory, &world, &vec![true, true]));
    assert!(pick_up_items_fit(&inventory, &world, &vec![false, false]));
}
