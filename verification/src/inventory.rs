//! Items, the player's inventory, and picking up dropped items.

use vstd::prelude::*;

verus! {

/// A stack of items of one type.
#[derive(Clone, Copy, PartialEq, Eq, Debug, Structural)]
pub struct Item {
    pub item_type_id: usize,
    pub amount: u32,
}

/// A kind of item. A block's item type is the one whose `id` is the block's
/// saved name.
#[derive(Debug)]
pub struct ItemType {
    pub id: String,
    pub name: String,
    pub placeable: bool,
    pub max_stack: u32,
    pub tool: bool,
    pub block: bool,
    pub collidable: bool,
}

/// An item lying in the world, with whatever the game uses to place and move
/// it.
pub struct DroppedItem<E> {
    pub entity: E,
    pub item: Item,
}

/// Number of inventory slots; the first 10 form the hotbar.
pub const INVENTORY_SLOTS: usize = 50;

/// The first slot from `j` on that is empty or holds items of type `type_id`,
/// or -1 if there is none.
pub open spec fn first_slot_from(inv: Seq<Option<Item>>, type_id: usize, j: int) -> int
    decreases inv.len() - j,
{
    if j < 0 || j >= inv.len() {
        -1
    } else {
        match inv[j] {
            None => j,
            Some(held) => if held.item_type_id == type_id {
                j
            } else {
                first_slot_from(inv, type_id, j + 1)
            },
        }
    }
}

/// The slot a picked-up item of type `type_id` goes to, or -1 if none.
pub open spec fn stash_slot(inv: Seq<Option<Item>>, type_id: usize) -> int {
    first_slot_from(inv, type_id, 0)
}

/// Stashing `item` does not push a slot's count past `u32::MAX`.
pub open spec fn stash_fits(inv: Seq<Option<Item>>, item: Item) -> bool {
    let s = stash_slot(inv, item.item_type_id);
    s < 0 || inv[s] is None || inv[s]->Some_0.amount < u32::MAX
}

/// The inventory after picking up `item`: the first slot that is empty or
/// holds the same type gets it. An empty slot takes the whole stack; a slot of
/// the same type counts one more. With no such slot, nothing changes.
pub open spec fn stash(inv: Seq<Option<Item>>, item: Item) -> Seq<Option<Item>> {
    let s = stash_slot(inv, item.item_type_id);
    if s < 0 {
        inv
    } else {
        match inv[s] {
            None => inv.update(s, Some(item)),
            Some(held) => inv.update(
                s,
                Some(Item { item_type_id: held.item_type_id, amount: (held.amount + 1) as u32 }),
            ),
        }
    }
}

/// The inventory after the touched items among the first `n` are picked up,
/// in order.
pub open spec fn picked(inv: Seq<Option<Item>>, items: Seq<Item>, touched: Seq<bool>, n: nat) -> Seq<Option<Item>>
    decreases n,
{
    if n == 0 {
        inv
    } else {
        let prev = picked(inv, items, touched, (n - 1) as nat);
        if touched[n - 1] {
            stash(prev, items[n - 1])
        } else {
            prev
        }
    }
}

/// Picking up all touched items keeps every count within `u32`.
pub open spec fn pickup_fits(inv: Seq<Option<Item>>, items: Seq<Item>, touched: Seq<bool>) -> bool {
    forall|n: int|
        0 <= n < items.len() && #[trigger] touched[n] ==> stash_fits(
            picked(inv, items, touched, n as nat),
            items[n],
        )
}

/// The dropped items from `i` on that were not touched, in order.
pub open spec fn kept_from<E>(dropped: Seq<DroppedItem<E>>, touched: Seq<bool>, i: int) -> Seq<DroppedItem<E>>
    decreases dropped.len() - i,
{
    if i < 0 || i >= dropped.len() {
        seq![]
    } else if touched[i] {
        kept_from(dropped, touched, i + 1)
    } else {
        seq![dropped[i]] + kept_from(dropped, touched, i + 1)
    }
}

pub open spec fn items_of<E>(dropped: Seq<DroppedItem<E>>) -> Seq<Item> {
    dropped.map_values(|d: DroppedItem<E>| d.item)
}

proof fn lemma_first_slot_from(inv: Seq<Option<Item>>, type_id: usize, j: int)
    requires
        0 <= j,
    ensures
        first_slot_from(inv, type_id, j) == -1 || j <= first_slot_from(inv, type_id, j) < inv.len(),
        first_slot_from(inv, type_id, j) >= 0 ==> match inv[first_slot_from(inv, type_id, j)] {
            None => true,
            Some(held) => held.item_type_id == type_id,
        },
        forall|k: int|
            j <= k < inv.len() && (k < first_slot_from(inv, type_id, j) || first_slot_from(inv, type_id, j) == -1)
                ==> (#[trigger] inv[k] is Some && inv[k]->Some_0.item_type_id != type_id),
    decreases inv.len() - j,
{
    if j < inv.len() {
        lemma_first_slot_from(inv, type_id, j + 1);
    }
}

/// The slot an item of type `type_id` goes to.
fn find_stash_slot(inventory: &[Option<Item>; INVENTORY_SLOTS], type_id: usize) -> (r: Option<usize>)
    ensures
        match r {
            Some(s) => s as int == stash_slot(inventory@, type_id),
            None => stash_slot(inventory@, type_id) == -1,
        },
{
    proof {
        lemma_first_slot_from(inventory@, type_id, 0);
    }
    let mut j: usize = 0;
    while j < INVENTORY_SLOTS
        invariant
            j <= INVENTORY_SLOTS,
            inventory@.len() == INVENTORY_SLOTS,
            first_slot_from(inventory@, type_id, j as int) == stash_slot(inventory@, type_id),
        decreases INVENTORY_SLOTS - j,
    {
        match inventory[j] {
            None => {
                return Some(j);
            },
            Some(held) => {
                if held.item_type_id == type_id {
                    return Some(j);
                }
            },
        }
        j = j + 1;
    }
    None
}

/// Puts `item` in the inventory as `stash` says.
fn stash_item(inventory: &mut [Option<Item>; INVENTORY_SLOTS], item: Item)
    requires
        stash_fits(old(inventory)@, item),
    ensures
        final(inventory)@ == stash(old(inventory)@, item),
{
    proof {
        lemma_first_slot_from(old(inventory)@, item.item_type_id, 0);
    }
    match find_stash_slot(inventory, item.item_type_id) {
        Some(s) => {
            match inventory[s] {
                None => {
                    inventory[s] = Some(item);
                },
                Some(held) => {
                    inventory[s] = Some(Item { item_type_id: held.item_type_id, amount: held.amount + 1 });
                },
            }
        },
        None => {},
    }
}

/// Picks up the dropped items the player touches (`touched[i]` for
/// `dropped_items[i]`), in order: each goes to the first slot that is empty
/// or holds its type, and leaves the world even if no slot takes it.
pub fn pick_up_items<E>(
    inventory: &mut [Option<Item>; INVENTORY_SLOTS],
    dropped_items: &mut Vec<DroppedItem<E>>,
    touched: &Vec<bool>,
)
    requires
        touched@.len() == old(dropped_items)@.len(),
        pickup_fits(old(inventory)@, items_of(old(dropped_items)@), touched@),
    ensures
        final(inventory)@ == picked(
            old(inventory)@,
            items_of(old(dropped_items)@),
            touched@,
            old(dropped_items)@.len(),
        ),
        final(dropped_items)@ == kept_from(old(dropped_items)@, touched@, 0),
{
    let ghost items = items_of(dropped_items@);
    let ghost inv0 = inventory@;
    let mut i: usize = 0;
    while i < dropped_items.len()
        invariant
            i <= dropped_items@.len(),
            touched@.len() == dropped_items@.len(),
            items == items_of(dropped_items@),
            pickup_fits(inv0, items, touched@),
            inventory@ == picked(inv0, items, touched@, i as nat),
        decreases dropped_items@.len() - i,
    {
        if touched[i] {
            let item = dropped_items[i].item;
            proof {
                assert(items[i as int] == item);
                assert(stash_fits(picked(inv0, items, touched@, i as nat), items[i as int]));
            }
            stash_item(inventory, item);
        }
        i = i + 1;
    }
    let ghost start = dropped_items@;
    let mut k: usize = dropped_items.len();
    proof {
        assert(start.take(k as int) =~= start);
    }
    while k > 0
        invariant
            k <= start.len(),
            touched@.len() == start.len(),
            dropped_items@ == start.take(k as int) + kept_from(start, touched@, k as int),
        decreases k,
    {
        k = k - 1;
        if touched[k] {
            dropped_items.remove(k);
            assert(dropped_items@ =~= start.take(k as int) + kept_from(start, touched@, k as int));
        } else {
            assert(dropped_items@ =~= start.take(k as int) + kept_from(start, touched@, k as int));
        }
    }
    assert(dropped_items@ =~= kept_from(start, touched@, 0));
}

/// Whether picking up the touched items keeps every count within `u32`
/// (`pickup_fits`).
pub fn pick_up_items_fit<E>(
    inventory: &[Option<Item>; INVENTORY_SLOTS],
    dropped_items: &Vec<DroppedItem<E>>,
    touched: &Vec<bool>,
) -> (r: bool)
    requires
        touched@.len() == dropped_items@.len(),
    ensures
        r == pickup_fits(inventory@, items_of(dropped_items@), touched@),
{
    let ghost items = items_of(dropped_items@);
    let mut trial: [Option<Item>; INVENTORY_SLOTS] = *inventory;
    let mut i: usize = 0;
    while i < dropped_items.len()
        invariant
            i <= dropped_items@.len(),
            touched@.len() == dropped_items@.len(),
            items == items_of(dropped_items@),
            trial@ == picked(inventory@, items, touched@, i as nat),
            forall|n: int|
                0 <= n < i && #[trigger] touched@[n] ==> stash_fits(
                    picked(inventory@, items, touched@, n as nat),
                    items[n],
                ),
        decreases dropped_items@.len() - i,
    {
        if touched[i] {
            let item = dropped_items[i].item;
            proof {
                assert(items[i as int] == item);
                lemma_first_slot_from(trial@, item.item_type_id, 0);
            }
            match find_stash_slot(&trial, item.item_type_id) {
                Some(s) => {
                    match trial[s] {
                        Some(held) => {
                            if held.amount == u32::MAX {
                                assert(!stash_fits(trial@, items[i as int]));
                                return false;
                            }
                        },
                        None => {},
                    }
                },
                None => {},
            }
            stash_item(&mut trial, item);
        }
        i = i + 1;
    }
    true
}

/// Where a picked-up item goes. When some slot is empty or holds the item's
/// type, the first such slot `s` of the whole inventory takes it: an empty
/// slot takes the whole stack, a slot of the same type counts one more, and
/// every other slot stays as it was. When every slot holds another type,
/// the inventory does not change.
pub proof fn lemma_stash_goes_to_first_fitting_slot(inv: Seq<Option<Item>>, item: Item, s: int)
    ensures
        (0 <= s < inv.len()
            && (inv[s] is None || inv[s]->Some_0.item_type_id == item.item_type_id)
            && (forall|j: int| 0 <= j < s ==> (#[trigger] inv[j]) is Some
                && inv[j]->Some_0.item_type_id != item.item_type_id)) ==> {
            &&& stash(inv, item).len() == inv.len()
            &&& inv[s] is None ==> stash(inv, item)[s] == Some(item)
            &&& inv[s] is Some ==> stash(inv, item)[s] == Some(Item {
                item_type_id: item.item_type_id,
                amount: (inv[s]->Some_0.amount + 1) as u32,
            })
            &&& forall|j: int| 0 <= j < inv.len() && j != s ==> #[trigger] stash(inv, item)[j] == inv[j]
        },
        (forall|j: int| 0 <= j < inv.len() ==> (#[trigger] inv[j]) is Some
            && inv[j]->Some_0.item_type_id != item.item_type_id) ==> stash(inv, item) == inv,
{
    lemma_first_slot_from(inv, item.item_type_id, 0);
    let f = first_slot_from(inv, item.item_type_id, 0);
    if 0 <= s < inv.len()
        && (inv[s] is None || inv[s]->Some_0.item_type_id == item.item_type_id)
        && (forall|j: int| 0 <= j < s ==> (#[trigger] inv[j]) is Some
            && inv[j]->Some_0.item_type_id != item.item_type_id) {
        if f == -1 {
            assert(inv[s] is Some && inv[s]->Some_0.item_type_id != item.item_type_id);
        } else if f < s {
            assert(inv[f] is Some && inv[f]->Some_0.item_type_id != item.item_type_id);
        } else if f > s {
            assert(inv[s] is Some && inv[s]->Some_0.item_type_id != item.item_type_id);
        }
        assert(f == s);
    }
    if forall|j: int| 0 <= j < inv.len() ==> (#[trigger] inv[j]) is Some
        && inv[j]->Some_0.item_type_id != item.item_type_id {
        if f != -1 {
            assert(inv[f] is Some);
        }
    }
}

/// Stashing never empties a slot, never changes which type a slot holds, and
/// never lowers a slot's count.
pub proof fn lemma_stash_keeps_slots(inv: Seq<Option<Item>>, item: Item)
    requires
        stash_fits(inv, item),
    ensures
        stash(inv, item).len() == inv.len(),
        forall|j: int|
            0 <= j < inv.len() && (#[trigger] inv[j]) is Some ==> {
                &&& stash(inv, item)[j] is Some
                &&& stash(inv, item)[j]->Some_0.item_type_id == inv[j]->Some_0.item_type_id
                &&& stash(inv, item)[j]->Some_0.amount >= inv[j]->Some_0.amount
            },
{
    lemma_first_slot_from(inv, item.item_type_id, 0);
}

/// Picking up items never empties a slot, never changes which type a slot
/// holds, and never lowers a slot's count.
pub proof fn lemma_pickup_keeps_slots(inv: Seq<Option<Item>>, items: Seq<Item>, touched: Seq<bool>, n: nat)
    requires
        n <= items.len(),
        touched.len() == items.len(),
        pickup_fits(inv, items, touched),
    ensures
        picked(inv, items, touched, n).len() == inv.len(),
        forall|j: int|
            0 <= j < inv.len() && (#[trigger] inv[j]) is Some ==> {
                &&& picked(inv, items, touched, n)[j] is Some
                &&& picked(inv, items, touched, n)[j]->Some_0.item_type_id == inv[j]->Some_0.item_type_id
                &&& picked(inv, items, touched, n)[j]->Some_0.amount >= inv[j]->Some_0.amount
            },
    decreases n,
{
    if n > 0 {
        lemma_pickup_keeps_slots(inv, items, touched, (n - 1) as nat);
        let prev = picked(inv, items, touched, (n - 1) as nat);
        if touched[n - 1] {
            assert(stash_fits(prev, items[n - 1]));
            lemma_stash_keeps_slots(prev, items[n - 1]);
            assert forall|j: int| 0 <= j < inv.len() && (#[trigger] inv[j]) is Some implies {
                &&& picked(inv, items, touched, n)[j] is Some
                &&& picked(inv, items, touched, n)[j]->Some_0.item_type_id == inv[j]->Some_0.item_type_id
                &&& picked(inv, items, touched, n)[j]->Some_0.amount >= inv[j]->Some_0.amount
            } by {
                assert(prev[j] is Some);
            }
        }
    }
}

/// The dropped items from `i` on that stay in the world are the untouched
/// ones: each one left is an untouched item from `i` on, and each untouched
/// item from `i` on is left.
pub proof fn lemma_kept_are_untouched<E>(dropped: Seq<DroppedItem<E>>, touched: Seq<bool>, i: int)
    requires
        0 <= i,
        touched.len() == dropped.len(),
    ensures
        forall|k: int|
            0 <= k < kept_from(dropped, touched, i).len() ==> exists|j: int|
                i <= j < dropped.len() && !touched[j] && #[trigger] kept_from(dropped, touched, i)[k]
                    == dropped[j],
        forall|j: int|
            i <= j < dropped.len() && !#[trigger] touched[j] ==> kept_from(dropped, touched, i).contains(
                dropped[j],
            ),
    decreases dropped.len() - i,
{
    if i < dropped.len() {
        lemma_kept_are_untouched(dropped, touched, i + 1);
        let rest = kept_from(dropped, touched, i + 1);
        let cur = kept_from(dropped, touched, i);
        if touched[i] {
            assert(cur == rest);
        } else {
            assert(cur == seq![dropped[i]] + rest);
            assert forall|k: int| 0 <= k < cur.len() implies exists|j: int|
                i <= j < dropped.len() && !touched[j] && #[trigger] cur[k] == dropped[j] by {
                if k == 0 {
                    assert(cur[0] == dropped[i]);
                } else {
                    assert(cur[k] == rest[k - 1]);
                    let j = choose|j: int|
                        i + 1 <= j < dropped.len() && !touched[j] && #[trigger] rest[k - 1] == dropped[j];
                }
            }
            assert forall|j: int| i <= j < dropped.len() && !#[trigger] touched[j] implies cur.contains(
                dropped[j],
            ) by {
                if j == i {
                    assert(cur[0] == dropped[i]);
                } else {
                    let k = choose|k: int| 0 <= k < rest.len() && rest[k] == dropped[j];
                    assert(cur[k + 1] == dropped[j]);
                }
            }
        }
    }
}

/// The item in the selected hotbar slot.
pub fn hotbar_logic(player_inventory: &[Option<Item>; INVENTORY_SLOTS], select_hotbar: i32) -> (item: Option<Item>)
    requires
        0 <= select_hotbar < INVENTORY_SLOTS,
    ensures
        item == player_inventory@[select_hotbar as int],
{
    player_inventory[select_hotbar as usize]
}

/// The hotbar slot chosen by the digit keys when `pressed[d]` tells whether
/// digit key `d` is pressed: keys 1 to 9 are tried in order and pick slots 0
/// to 8, then key 0 picks slot 9.
pub open spec fn digit_slot_from(pressed: Seq<bool>, d: int) -> Option<u8>
    decreases 10 - d,
{
    if d >= 10 {
        if pressed[0] {
            Some(9u8)
        } else {
            None
        }
    } else if pressed[d] {
        Some((d - 1) as u8)
    } else {
        digit_slot_from(pressed, d + 1)
    }
}

proof fn lemma_digit_slot_skips(pressed: Seq<bool>, k: int, d: int)
    requires
        1 <= k <= d <= 10,
        pressed.len() == 10,
        forall|e: int| k <= e < d ==> !#[trigger] pressed[e],
    ensures
        digit_slot_from(pressed, k) == digit_slot_from(pressed, d),
    decreases d - k,
{
    if k < d {
        lemma_digit_slot_skips(pressed, k + 1, d);
    }
}

/// The digit keys pick hotbar slots as the number row reads: when `d` is the
/// lowest of the digits 1 to 9 held down, slot `d - 1` is chosen; when none
/// of them is, the 0 key picks slot 9, and otherwise nothing is chosen.
pub proof fn lemma_digit_keys_select_slots(pressed: Seq<bool>, d: int)
    requires
        pressed.len() == 10,
    ensures
        1 <= d <= 9 && pressed[d] && (forall|e: int| 1 <= e < d ==> !#[trigger] pressed[e])
            ==> digit_slot_from(pressed, 1) == Some((d - 1) as u8) && (d - 1) as u8 as int == d - 1,
        (forall|e: int| 1 <= e <= 9 ==> !#[trigger] pressed[e]) ==> digit_slot_from(pressed, 1) == (
        if pressed[0] {
            Some(9u8)
        } else {
            None
        }),
{
    if 1 <= d <= 9 && pressed[d] && (forall|e: int| 1 <= e < d ==> !#[trigger] pressed[e]) {
        lemma_digit_slot_skips(pressed, 1, d);
    }
    if forall|e: int| 1 <= e <= 9 ==> !#[trigger] pressed[e] {
        lemma_digit_slot_skips(pressed, 1, 10);
    }
}

/// The hotbar slot the pressed digit keys select, if any.
pub fn keyboard_number(pressed: &[bool; 10]) -> (slot: Option<u8>)
    ensures
        slot == digit_slot_from(pressed@, 1),
{
    let mut d: usize = 1;
    while d < 10
        invariant
            1 <= d <= 10,
            pressed@.len() == 10,
            digit_slot_from(pressed@, d as int) == digit_slot_from(pressed@, 1),
        decreases 10 - d,
    {
        if pressed[d] {
            return Some((d - 1) as u8);
        }
        d = d + 1;
    }
    if pressed[0] {
        Some(9)
    } else {
        None
    }
}

} // verus!
