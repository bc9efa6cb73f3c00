use obfuscation::game::{
    FeralItem, FeralItemId, ItemSlot, ItemType, ItemTypeId, Tile, ITEM_ALIGNITE, ITEM_BATTERY,
    ITEM_BULLET, ITEM_CLUMP, ITEM_DEAD_DRONE, ITEM_GUNPOWDER, ITEM_OBFUSCATOR, ITEM_SCRAP,
};
use obfuscation::items::{
    compact_slots, craft_item_recipe, craft_machine_recipe, craftt, feral_remove_if_empty,
    place_item, press_batteries, press_batteries_at, rotate_slots, slots_can_hold,
    slots_contains, stack_slots, take_front, take_front_slot, take_items,
};
use obfuscation::lgrn::IdReg;
use std::collections::BTreeMap;

fn catalog() -> Vec<ItemType> {
    let stack = [1u32, 69, 69, 69, 69, 69, 1, 1];
    let names = [
        "Destroyed Logistics Drone",
        "Scrap Metal",
        "Battery",
        "Red Alignite crystal",
        "Gunpowder",
        "Bullet",
        "Red Alignite clump",
        "Obfuscator Charge",
    ];
    (0..8).map(|i| ItemType { stackable: stack[i], name: names[i], desc: "" }).collect()
}

fn some(itemtype: usize, count: u32) -> Option<ItemSlot> {
    Some(ItemSlot { itemtype: ItemTypeId(itemtype), count })
}

fn slot(itemtype: usize, count: u32) -> ItemSlot {
    ItemSlot { itemtype: ItemTypeId(itemtype), count }
}

struct Piles {
    ids: IdReg<FeralItemId>,
    data: Vec<FeralItem>,
    by_tile: BTreeMap<(u8, u8), FeralItemId>,
}

fn piles() -> Piles {
    let mut ids: IdReg<FeralItemId> = Default::default();
    ids.resize(32);
    Piles { ids, data: Vec::new(), by_tile: BTreeMap::new() }
}

fn place(p: &mut Piles, x: u32, y: u32, s: ItemSlot) -> Result<FeralItemId, (FeralItemId, ItemSlot, bool)> {
    place_item(&catalog(), &mut p.ids, &mut p.data, &mut p.by_tile, Tile { x, y }, s)
}

#[test]
fn take_items_takes_front_slots_first_and_compacts() {
    let mut slots = [some(ITEM_BULLET, 5), some(ITEM_SCRAP, 3), some(ITEM_BULLET, 10), None];
    assert_eq!(take_items(&mut slots, ItemTypeId(ITEM_BULLET), 7), 7);
    assert_eq!(slots, [some(ITEM_SCRAP, 3), some(ITEM_BULLET, 8), None, None]);
}

#[test]
fn take_items_never_takes_more_than_there_is() {
    let mut slots = [some(ITEM_BULLET, 5), None, some(ITEM_BULLET, 2), some(ITEM_SCRAP, 1)];
    assert_eq!(take_items(&mut slots, ItemTypeId(ITEM_BULLET), 100), 7);
    assert_eq!(slots, [some(ITEM_SCRAP, 1), None, None, None]);
}

#[test]
fn take_items_of_nothing_only_compacts() {
    let mut slots = [None, some(ITEM_SCRAP, 3), None, some(ITEM_BULLET, 2)];
    assert_eq!(take_items(&mut slots, ItemTypeId(ITEM_BATTERY), 4), 0);
    assert_eq!(slots, [some(ITEM_SCRAP, 3), some(ITEM_BULLET, 2), None, None]);
    assert_eq!(take_items(&mut slots, ItemTypeId(ITEM_SCRAP), 0), 0);
    assert_eq!(slots, [some(ITEM_SCRAP, 3), some(ITEM_BULLET, 2), None, None]);
}

#[test]
fn take_items_leaves_no_gap_before_an_occupied_slot() {
    for mask in 0..16u32 {
        for amount in [0u32, 1, 3, 4, 9] {
            let mut slots = [None; 4];
            for i in 0..4 {
                if mask & (1 << i) != 0 {
                    slots[i] = some(if i % 2 == 0 { ITEM_BULLET } else { ITEM_SCRAP }, 2 + i as u32);
                }
            }
            let total: u32 = slots
                .iter()
                .flatten()
                .filter(|s| s.itemtype == ItemTypeId(ITEM_BULLET))
                .map(|s| s.count)
                .sum();
            let got = take_items(&mut slots, ItemTypeId(ITEM_BULLET), amount);
            assert_eq!(got, amount.min(total));
            let first_gap = slots.iter().position(|s| s.is_none()).unwrap_or(4);
            assert!(slots[first_gap..].iter().all(|s| s.is_none()));
        }
    }
}

#[test]
fn compact_slots_keeps_the_order() {
    let mut slots = [None, some(1, 1), None, some(2, 2)];
    compact_slots(&mut slots);
    assert_eq!(slots, [some(1, 1), some(2, 2), None, None]);
    let mut full = [some(3, 1), some(1, 1), some(2, 1), some(0, 1)];
    compact_slots(&mut full);
    assert_eq!(full, [some(3, 1), some(1, 1), some(2, 1), some(0, 1)]);
}

#[test]
fn slots_contains_sums_over_the_slots() {
    let slots = [some(ITEM_BULLET, 5), some(ITEM_SCRAP, 3), some(ITEM_BULLET, 10), None];
    assert!(slots_contains(&slots, ItemTypeId(ITEM_BULLET), 1));
    assert!(slots_contains(&slots, ItemTypeId(ITEM_BULLET), 15));
    assert!(!slots_contains(&slots, ItemTypeId(ITEM_BULLET), 16));
    assert!(slots_contains(&slots, ItemTypeId(ITEM_SCRAP), 3));
    assert!(!slots_contains(&slots, ItemTypeId(ITEM_BATTERY), 1));
    // asking for nothing still needs a slot of the type
    assert!(slots_contains(&slots, ItemTypeId(ITEM_SCRAP), 0));
    assert!(!slots_contains(&slots, ItemTypeId(ITEM_BATTERY), 0));
    assert!(!slots_contains(&[], ItemTypeId(ITEM_BATTERY), 0));
}

#[test]
fn stack_slots_fills_stacks_then_the_first_empty_slot() {
    let mut slots = [some(ITEM_BATTERY, 60), some(ITEM_SCRAP, 1), some(ITEM_BATTERY, 68), None];
    let left = stack_slots(&mut slots, 69, slot(ITEM_BATTERY, 20));
    assert_eq!(slots, [some(ITEM_BATTERY, 69), some(ITEM_SCRAP, 1), some(ITEM_BATTERY, 69), some(ITEM_BATTERY, 10)]);
    assert_eq!(left, ItemSlot::default());
    assert_eq!(left.count, 0);
    let left = stack_slots(&mut slots, 69, slot(ITEM_BATTERY, 5));
    assert_eq!(left, slot(ITEM_BATTERY, 0));
    assert_eq!(slots[3], some(ITEM_BATTERY, 15));
    let left = stack_slots(&mut slots, 69, slot(ITEM_BATTERY, 60));
    assert_eq!(left, slot(ITEM_BATTERY, 6));
    assert_eq!(slots[3], some(ITEM_BATTERY, 69));
    let left = stack_slots(&mut slots, 69, slot(ITEM_SCRAP, 70));
    assert_eq!(left, slot(ITEM_SCRAP, 2));
    assert_eq!(slots[1], some(ITEM_SCRAP, 69));
}

#[test]
fn stack_slots_empty_slot_ignores_the_stack_limit() {
    let mut slots = [None; 4];
    let left = stack_slots(&mut slots, 1, slot(ITEM_DEAD_DRONE, 55));
    assert_eq!(left.count, 0);
    assert_eq!(slots, [some(ITEM_DEAD_DRONE, 55), None, None, None]);
    // a stack above its limit takes nothing more
    let left = stack_slots(&mut slots, 1, slot(ITEM_DEAD_DRONE, 1));
    assert_eq!(left.count, 0);
    assert_eq!(slots, [some(ITEM_DEAD_DRONE, 55), some(ITEM_DEAD_DRONE, 1), None, None]);
}

#[test]
fn place_item_on_empty_tile_makes_a_pile() {
    let mut p = piles();
    let r = place(&mut p, 3, 4, slot(ITEM_BATTERY, 44));
    assert_eq!(r, Ok(FeralItemId(0)));
    assert!(p.ids.is_active(FeralItemId(0)));
    assert_eq!(p.by_tile.get(&(3, 4)), Some(&FeralItemId(0)));
    assert_eq!(p.data.len(), p.ids.capacity());
    assert_eq!(p.data[0].pos, Tile { x: 3, y: 4 });
    assert_eq!(p.data[0].slots, [some(ITEM_BATTERY, 44), None, None, None]);
    let r = place(&mut p, 2, 2, slot(ITEM_DEAD_DRONE, 55));
    assert_eq!(r, Ok(FeralItemId(1)));
    assert_eq!(p.data[1].slots, [some(ITEM_DEAD_DRONE, 55), None, None, None]);
}

#[test]
fn place_batteries_in_stacks_of_44_fills_first_fit() {
    let mut p = piles();
    assert_eq!(place(&mut p, 3, 4, slot(ITEM_BATTERY, 44)), Ok(FeralItemId(0)));
    assert_eq!(p.data[0].slots, [some(ITEM_BATTERY, 44), None, None, None]);
    assert_eq!(place(&mut p, 3, 4, slot(ITEM_BATTERY, 44)), Ok(FeralItemId(0)));
    assert_eq!(p.data[0].slots, [some(ITEM_BATTERY, 69), some(ITEM_BATTERY, 19), None, None]);
    assert_eq!(place(&mut p, 3, 4, slot(ITEM_BATTERY, 44)), Ok(FeralItemId(0)));
    assert_eq!(p.data[0].slots, [some(ITEM_BATTERY, 69), some(ITEM_BATTERY, 63), None, None]);
    assert_eq!(place(&mut p, 3, 4, slot(ITEM_BATTERY, 44)), Ok(FeralItemId(0)));
    assert_eq!(
        p.data[0].slots,
        [some(ITEM_BATTERY, 69), some(ITEM_BATTERY, 69), some(ITEM_BATTERY, 38), None]
    );
    let total: u32 = p.data[0].slots.iter().flatten().map(|s| s.count).sum();
    assert_eq!(total, 176);
}

#[test]
fn place_44_batteries_one_at_a_time_gives_one_stack() {
    let mut p = piles();
    for n in 1..=44u32 {
        assert_eq!(place(&mut p, 3, 4, slot(ITEM_BATTERY, 1)), Ok(FeralItemId(0)));
        assert_eq!(p.data[0].slots, [some(ITEM_BATTERY, n), None, None, None]);
    }
    for n in 45..=69u32 {
        assert_eq!(place(&mut p, 3, 4, slot(ITEM_BATTERY, 1)), Ok(FeralItemId(0)));
        assert_eq!(p.data[0].slots[0], some(ITEM_BATTERY, n));
    }
    assert_eq!(place(&mut p, 3, 4, slot(ITEM_BATTERY, 1)), Ok(FeralItemId(0)));
    assert_eq!(p.data[0].slots, [some(ITEM_BATTERY, 69), some(ITEM_BATTERY, 1), None, None]);
}

#[test]
fn place_item_on_full_pile_hands_back_what_is_left() {
    let mut p = piles();
    place(&mut p, 1, 1, slot(ITEM_DEAD_DRONE, 1)).unwrap();
    place(&mut p, 1, 1, slot(ITEM_SCRAP, 68)).unwrap();
    place(&mut p, 1, 1, slot(ITEM_CLUMP, 1)).unwrap();
    place(&mut p, 1, 1, slot(ITEM_OBFUSCATOR, 1)).unwrap();
    assert_eq!(
        p.data[0].slots,
        [some(ITEM_DEAD_DRONE, 1), some(ITEM_SCRAP, 68), some(ITEM_CLUMP, 1), some(ITEM_OBFUSCATOR, 1)]
    );
    // nothing of it fits
    assert_eq!(
        place(&mut p, 1, 1, slot(ITEM_BULLET, 3)),
        Err((FeralItemId(0), slot(ITEM_BULLET, 3), false))
    );
    // part of it fits
    assert_eq!(
        place(&mut p, 1, 1, slot(ITEM_SCRAP, 5)),
        Err((FeralItemId(0), slot(ITEM_SCRAP, 4), true))
    );
    assert_eq!(p.data[0].slots[1], some(ITEM_SCRAP, 69));
    assert_eq!(
        place(&mut p, 1, 1, slot(ITEM_DEAD_DRONE, 1)),
        Err((FeralItemId(0), slot(ITEM_DEAD_DRONE, 1), false))
    );
}

#[test]
fn place_item_grows_the_registry_when_full() {
    let mut p = piles();
    for i in 0..64u32 {
        assert_eq!(place(&mut p, i, 0, slot(ITEM_SCRAP, 1)), Ok(FeralItemId(i as usize)));
    }
    assert_eq!(p.ids.capacity(), 64);
    assert_eq!(place(&mut p, 64, 0, slot(ITEM_SCRAP, 1)), Ok(FeralItemId(64)));
    assert_eq!(p.ids.capacity(), 128);
    assert_eq!(p.data.len(), 128);
    assert_eq!(p.data[64].pos, Tile { x: 64, y: 0 });
    assert_eq!(p.data[63].slots[0], some(ITEM_SCRAP, 1));
}

#[test]
fn place_then_take_back_removes_the_pile() {
    let mut p = piles();
    let id = place(&mut p, 7, 9, slot(ITEM_BULLET, 30)).unwrap();
    assert_eq!(take_items(&mut p.data[id.0].slots, ItemTypeId(ITEM_BULLET), 30), 30);
    assert_eq!(p.data[id.0].slots, [None, None, None, None]);
    feral_remove_if_empty(&mut p.ids, &mut p.data, &mut p.by_tile, id);
    assert!(!p.ids.is_active(id));
    assert_eq!(p.by_tile.get(&(7, 9)), None);
    assert!(p.by_tile.is_empty());
    // the handle is given out again
    assert_eq!(place(&mut p, 1, 1, slot(ITEM_SCRAP, 1)), Ok(id));
    assert_eq!(p.data[id.0].slots, [some(ITEM_SCRAP, 1), None, None, None]);
}

#[test]
fn feral_remove_if_empty_keeps_a_pile_that_holds_something() {
    let mut p = piles();
    let id = place(&mut p, 7, 9, slot(ITEM_BULLET, 30)).unwrap();
    assert_eq!(take_items(&mut p.data[id.0].slots, ItemTypeId(ITEM_BULLET), 29), 29);
    feral_remove_if_empty(&mut p.ids, &mut p.data, &mut p.by_tile, id);
    assert!(p.ids.is_active(id));
    assert_eq!(p.by_tile.get(&(7, 9)), Some(&id));
}

#[test]
fn craft_disassembles_a_drone() {
    let slots = [some(ITEM_DEAD_DRONE, 1), None, None, None];
    assert_eq!(
        craft_item_recipe(&catalog(), &slots, 0),
        Some([some(ITEM_SCRAP, 1), some(ITEM_BATTERY, 1), None, None])
    );
    assert_eq!(slots, [some(ITEM_DEAD_DRONE, 1), None, None, None]);
}

#[test]
fn craft_bullets_sums_requirements_over_slots() {
    let slots = [some(ITEM_GUNPOWDER, 2), some(ITEM_BULLET, 66), some(ITEM_SCRAP, 1), None];
    assert_eq!(
        craft_item_recipe(&catalog(), &slots, 1),
        Some([some(ITEM_GUNPOWDER, 1), some(ITEM_BULLET, 69), some(ITEM_BULLET, 3), None])
    );
    let split = [some(ITEM_ALIGNITE, 1), some(ITEM_ALIGNITE, 2), some(ITEM_SCRAP, 9), some(ITEM_ALIGNITE, 5)];
    assert_eq!(
        craft_item_recipe(&catalog(), &split, 2),
        Some([some(ITEM_SCRAP, 9), some(ITEM_ALIGNITE, 4), some(ITEM_CLUMP, 1), None])
    );
}

#[test]
fn craft_fails_without_the_requirements() {
    let slots = [some(ITEM_GUNPOWDER, 2), None, None, None];
    assert_eq!(craft_item_recipe(&catalog(), &slots, 1), None);
    assert_eq!(craft_item_recipe(&catalog(), &slots, 0), None);
    assert_eq!(craft_item_recipe(&catalog(), &slots, 2), None);
    assert_eq!(craft_item_recipe(&catalog(), &slots, 69), None);
    assert_eq!(craft_item_recipe(&catalog(), &[None; 4], 0), None);
    assert_eq!(slots, [some(ITEM_GUNPOWDER, 2), None, None, None]);
}

#[test]
fn craft_fails_where_an_output_does_not_fit() {
    // taking one drone of two frees no slot, and the battery finds no room
    let slots = [some(ITEM_DEAD_DRONE, 2), some(ITEM_BULLET, 1), some(ITEM_CLUMP, 1), None];
    assert_eq!(craft_item_recipe(&catalog(), &slots, 0), None);
    // with one drone its slot is freed
    let slots = [some(ITEM_DEAD_DRONE, 1), some(ITEM_BULLET, 1), some(ITEM_CLUMP, 1), None];
    assert_eq!(
        craft_item_recipe(&catalog(), &slots, 0),
        Some([some(ITEM_BULLET, 1), some(ITEM_CLUMP, 1), some(ITEM_SCRAP, 1), some(ITEM_BATTERY, 1)])
    );
}

#[test]
fn craft_uses_up_an_obfuscator_charge() {
    let slots = [some(ITEM_BULLET, 4), some(ITEM_OBFUSCATOR, 1), None, None];
    assert_eq!(
        craft_item_recipe(&catalog(), &slots, 69),
        Some([some(ITEM_BULLET, 4), None, None, None])
    );
}

#[test]
fn craft_machine_recipes_take_their_parts() {
    let slots = [some(ITEM_SCRAP, 5), some(ITEM_BATTERY, 4), some(ITEM_ALIGNITE, 1), None];
    assert_eq!(
        craft_machine_recipe(&catalog(), &slots, 5),
        Some([some(ITEM_SCRAP, 3), some(ITEM_BATTERY, 4), some(ITEM_ALIGNITE, 1), None])
    );
    assert_eq!(
        craft_machine_recipe(&catalog(), &slots, 6),
        Some([some(ITEM_SCRAP, 1), some(ITEM_ALIGNITE, 1), None, None])
    );
    assert_eq!(
        craft_machine_recipe(&catalog(), &slots, 7),
        Some([some(ITEM_SCRAP, 1), None, None, None])
    );
    let poor = [some(ITEM_SCRAP, 3), some(ITEM_BATTERY, 4), None, None];
    assert_eq!(craft_machine_recipe(&catalog(), &poor, 6), None);
    assert_eq!(
        craft_machine_recipe(&catalog(), &poor, 5),
        Some([some(ITEM_SCRAP, 1), some(ITEM_BATTERY, 4), None, None])
    );
}

#[test]
fn craftt_reports_what_was_not_met_and_not_placed() {
    let slots = [some(ITEM_SCRAP, 3), some(ITEM_BULLET, 68), None, None];
    let mut req = [slot(ITEM_SCRAP, 5), slot(ITEM_BULLET, 1)];
    let mut out = [slot(ITEM_CLUMP, 1)];
    assert_eq!(craftt(&catalog(), &slots, &mut req, &mut out), None);
    assert_eq!(req, [slot(ITEM_SCRAP, 2), slot(ITEM_BULLET, 0)]);
    assert_eq!(out, [slot(ITEM_CLUMP, 1)]);

    let mut req = [slot(ITEM_SCRAP, 3)];
    let mut out = [slot(ITEM_BULLET, 2), slot(ITEM_CLUMP, 2)];
    assert_eq!(
        craftt(&catalog(), &slots, &mut req, &mut out),
        Some([some(ITEM_BULLET, 69), some(ITEM_BULLET, 1), some(ITEM_CLUMP, 2), None])
    );
    assert_eq!(req, [slot(ITEM_SCRAP, 0)]);
    assert_eq!(out, [ItemSlot::default(), ItemSlot::default()]);
}

#[test]
fn craftt_serves_only_the_first_requirement_of_a_type() {
    let slots = [some(ITEM_SCRAP, 9), None, None, None];
    let mut req = [slot(ITEM_SCRAP, 1), slot(ITEM_SCRAP, 1)];
    let mut out: [ItemSlot; 0] = [];
    assert_eq!(craftt(&catalog(), &slots, &mut req, &mut out), None);
    assert_eq!(req, [slot(ITEM_SCRAP, 0), slot(ITEM_SCRAP, 1)]);
}

#[test]
fn slots_can_hold_counts_room_in_stacks_and_empty_slots() {
    let types = catalog();
    let slots = [some(ITEM_BULLET, 60), some(ITEM_SCRAP, 69), None, None];
    let mut list = [(ItemTypeId(ITEM_BULLET), 9u32), (ItemTypeId(ITEM_SCRAP), 5)];
    assert!(slots_can_hold(&types, &slots, &mut list));
    assert_eq!(list, [(ItemTypeId(usize::MAX), 0), (ItemTypeId(usize::MAX), 0)]);

    let mut list = [(ItemTypeId(ITEM_BULLET), 10u32), (ItemTypeId(ITEM_SCRAP), 5), (ItemTypeId(ITEM_CLUMP), 1)];
    assert!(!slots_can_hold(&types, &slots, &mut list));
    assert_eq!(
        list,
        [(ItemTypeId(usize::MAX), 0), (ItemTypeId(usize::MAX), 0), (ItemTypeId(ITEM_CLUMP), 1)]
    );

    let full = [some(ITEM_BULLET, 69), some(ITEM_SCRAP, 69), some(ITEM_CLUMP, 1), some(ITEM_BATTERY, 1)];
    let mut list = [(ItemTypeId(ITEM_BATTERY), 68u32)];
    assert!(slots_can_hold(&types, &full, &mut list));
    let mut list = [(ItemTypeId(ITEM_BATTERY), 69u32)];
    assert!(!slots_can_hold(&types, &full, &mut list));
    assert_eq!(list, [(ItemTypeId(ITEM_BATTERY), 1)]);
    let mut none: [(ItemTypeId, u32); 0] = [];
    assert!(slots_can_hold(&types, &full, &mut none));
}

#[test]
fn rotate_and_take_front() {
    let mut slots = [some(1, 1), some(2, 2), None, None];
    rotate_slots(&mut slots);
    assert_eq!(slots, [some(2, 2), None, None, some(1, 1)]);

    let mut slots = [some(ITEM_SCRAP, 2), some(ITEM_BULLET, 7), None, None];
    assert_eq!(take_front(&mut slots), ItemTypeId(ITEM_SCRAP));
    assert_eq!(slots, [some(ITEM_SCRAP, 1), some(ITEM_BULLET, 7), None, None]);
    assert_eq!(take_front(&mut slots), ItemTypeId(ITEM_SCRAP));
    assert_eq!(slots, [some(ITEM_BULLET, 7), None, None, None]);
    assert_eq!(take_front_slot(&mut slots), slot(ITEM_BULLET, 7));
    assert_eq!(slots, [None, None, None, None]);
}

#[test]
fn press_batteries_makes_gunpowder() {
    let mut slots = [some(ITEM_BATTERY, 3), some(ITEM_SCRAP, 1), some(ITEM_BATTERY, 69), None];
    assert!(press_batteries(&mut slots));
    assert_eq!(slots, [some(ITEM_GUNPOWDER, 3), some(ITEM_SCRAP, 1), some(ITEM_GUNPOWDER, 69), None]);
    assert!(!press_batteries(&mut slots));

    let mut p = piles();
    let id = place(&mut p, 5, 5, slot(ITEM_BATTERY, 2)).unwrap();
    assert!(!press_batteries_at(Tile { x: 5, y: 6 }, &mut p.data, &p.by_tile));
    assert!(press_batteries_at(Tile { x: 5, y: 5 }, &mut p.data, &p.by_tile));
    assert_eq!(p.data[id.0].slots[0], some(ITEM_GUNPOWDER, 2));
}
