use obfuscation::game::{
    Bend, BulletId, Dir, Drag, DroneId, FeralItemId, ItemSlot, ItemType, ItemTypeId, Machine,
    MachineId, MachineSpec, Rail, Tile, TileThing, ToolMode, ITEM_ALIGNITE, ITEM_BATTERY,
    ITEM_BULLET, ITEM_DEAD_DRONE, ITEM_OBFUSCATOR, ITEM_SCRAP, PLAYER_GUN_AMMO_MAX,
};
use obfuscation::items::place_item;
use obfuscation::machine::{CONVEY_DUMP_PERIOD, CONVEY_TAKE_PERIOD};
use obfuscation::rail::regen_rail_by_tile;
use obfuscation::world::{apply_removals, resolve_hit, spawn_drone, GameMain};

fn catalog() -> Vec<ItemType> {
    let stack = [1u32, 69, 69, 69, 69, 69, 1, 1];
    (0..8).map(|i| ItemType { stackable: stack[i], name: "", desc: "" }).collect()
}

fn some(itemtype: usize, count: u32) -> Option<ItemSlot> {
    Some(ItemSlot { itemtype: ItemTypeId(itemtype), count })
}

fn slot(itemtype: usize, count: u32) -> ItemSlot {
    ItemSlot { itemtype: ItemTypeId(itemtype), count }
}

fn world() -> GameMain {
    let mut w = GameMain::new(Tile { x: 80, y: 25 }, catalog());
    for x in 0..80 {
        w.rail.push(Rail { pos: Tile { x, y: 12 }, dir: Dir::Right, bend: Bend::Forward });
    }
    regen_rail_by_tile(&w.rail, &mut w.rail_by_tile);
    w
}

fn pile(w: &mut GameMain, x: u32, y: u32, s: ItemSlot) -> FeralItemId {
    place_item(&w.itemtype_data, &mut w.feral_ids, &mut w.feral_data, &mut w.feral_by_tile, Tile { x, y }, s)
        .unwrap()
}

fn slots_at(w: &GameMain, x: u32, y: u32) -> Option<[Option<ItemSlot>; 4]> {
    match w.thing_at(Tile { x, y }) {
        TileThing::Feral(id) => Some(w.feral_data[id.0].slots),
        _ => None,
    }
}

fn builder(w: &mut GameMain) {
    if w.tool == ToolMode::GunPod {
        w.cycle_tool();
    }
    assert_eq!(w.tool, ToolMode::Construct(Drag::Nothing));
}

#[test]
fn new_world_is_empty() {
    let w = GameMain::new(Tile { x: 80, y: 25 }, catalog());
    assert_eq!(w.time_us, 0);
    assert_eq!(w.tool, ToolMode::GunPod);
    assert_eq!(w.drone_ids.capacity(), 512);
    assert_eq!(w.bullet_ids.capacity(), 128);
    assert_eq!(w.feral_ids.capacity(), 64);
    assert_eq!(w.mach_ids.capacity(), 64);
    assert_eq!(w.drone_ids.iter_ids().next(), None);
    assert_eq!(w.thing_at(Tile { x: 3, y: 3 }), TileThing::Nothing);
    assert!(w.piles_have_room());
}

#[test]
fn cycle_tool_switches_with_empty_hands_only() {
    let mut w = world();
    w.cycle_tool();
    assert_eq!(w.tool, ToolMode::Construct(Drag::Nothing));
    w.cycle_tool();
    assert_eq!(w.tool, ToolMode::GunPod);
    w.tool = ToolMode::Construct(Drag::Item(slot(ITEM_SCRAP, 1)));
    w.cycle_tool();
    assert_eq!(w.tool, ToolMode::Construct(Drag::Item(slot(ITEM_SCRAP, 1))));
}

#[test]
fn clock_advances() {
    let mut w = world();
    w.advance_clock(16_666);
    w.advance_clock(100_000);
    assert_eq!(w.time_us, 116_666);
}

#[test]
fn pick_up_takes_the_front_slot() {
    let mut w = world();
    let id = pile(&mut w, 3, 4, slot(ITEM_SCRAP, 5));
    pile(&mut w, 3, 4, slot(ITEM_BULLET, 9));
    builder(&mut w);
    assert!(!w.pick_up(Tile { x: 9, y: 9 }));
    assert!(w.pick_up(Tile { x: 3, y: 4 }));
    assert_eq!(w.tool, ToolMode::Construct(Drag::Item(slot(ITEM_SCRAP, 5))));
    assert_eq!(w.feral_data[id.0].slots, [some(ITEM_BULLET, 9), None, None, None]);
    assert_eq!(w.thing_at(Tile { x: 3, y: 4 }), TileThing::Feral(id));
}

#[test]
fn pick_up_of_the_last_slot_removes_the_pile() {
    let mut w = world();
    let id = pile(&mut w, 3, 4, slot(ITEM_SCRAP, 5));
    builder(&mut w);
    assert!(w.pick_up(Tile { x: 3, y: 4 }));
    assert_eq!(w.tool, ToolMode::Construct(Drag::Item(slot(ITEM_SCRAP, 5))));
    assert_eq!(w.thing_at(Tile { x: 3, y: 4 }), TileThing::Nothing);
    assert!(!w.feral_ids.is_active(id));
    // and putting it down again makes the pile anew
    assert!(w.put_down_item(Tile { x: 8, y: 8 }));
    assert_eq!(w.tool, ToolMode::Construct(Drag::Nothing));
    assert_eq!(slots_at(&w, 8, 8), Some([some(ITEM_SCRAP, 5), None, None, None]));
}

#[test]
fn put_down_item_keeps_what_does_not_fit() {
    let mut w = world();
    pile(&mut w, 1, 1, slot(ITEM_DEAD_DRONE, 1));
    pile(&mut w, 1, 1, slot(ITEM_SCRAP, 60));
    pile(&mut w, 1, 1, slot(ITEM_OBFUSCATOR, 1));
    pile(&mut w, 1, 1, slot(ITEM_OBFUSCATOR, 1));
    w.tool = ToolMode::Construct(Drag::Item(slot(ITEM_SCRAP, 20)));
    assert!(w.put_down_item(Tile { x: 1, y: 1 }));
    assert_eq!(w.tool, ToolMode::Construct(Drag::Item(slot(ITEM_SCRAP, 11))));
    assert!(!w.put_down_item(Tile { x: 1, y: 1 }));
    assert_eq!(w.tool, ToolMode::Construct(Drag::Item(slot(ITEM_SCRAP, 11))));
    assert_eq!(slots_at(&w, 1, 1).unwrap()[1], some(ITEM_SCRAP, 69));
}

#[test]
fn bullets_put_on_a_turret_load_it() {
    let mut w = world();
    pile(&mut w, 2, 2, slot(ITEM_SCRAP, 2));
    builder(&mut w);
    let turret = w.craft_machine(Tile { x: 2, y: 2 }, 5).unwrap();
    assert!(w.put_down_machine(Tile { x: 6, y: 6 }));
    w.tool = ToolMode::Construct(Drag::Item(slot(ITEM_BULLET, 100)));
    assert!(w.put_down_item(Tile { x: 6, y: 6 }));
    assert_eq!(w.mach_data[turret.0].spec, MachineSpec::Turret { ammo: 69, can_fire_time_us: 0 });
    assert_eq!(w.tool, ToolMode::Construct(Drag::Item(slot(ITEM_BULLET, 31))));
    // full: nothing goes in, the bullets stay in the hands
    assert!(w.put_down_item(Tile { x: 6, y: 6 }));
    assert_eq!(w.tool, ToolMode::Construct(Drag::Item(slot(ITEM_BULLET, 31))));
    // other items are not for turrets, and are not dropped on them either
    w.tool = ToolMode::Construct(Drag::Item(slot(ITEM_SCRAP, 3)));
    assert!(!w.put_down_item(Tile { x: 6, y: 6 }));
    assert_eq!(w.tool, ToolMode::Construct(Drag::Item(slot(ITEM_SCRAP, 3))));
    assert_eq!(w.thing_at(Tile { x: 6, y: 6 }), TileThing::Machine(turret));

    w.mach_data[turret.0].spec = MachineSpec::Turret { ammo: 60, can_fire_time_us: 0 };
    w.tool = ToolMode::Construct(Drag::Item(slot(ITEM_BULLET, 9)));
    assert!(w.put_down_item(Tile { x: 6, y: 6 }));
    assert_eq!(w.mach_data[turret.0].spec, MachineSpec::Turret { ammo: 69, can_fire_time_us: 0 });
    assert_eq!(w.tool, ToolMode::Construct(Drag::Nothing));
}

#[test]
fn craft_items_commits_only_what_can_be_crafted() {
    let mut w = world();
    let id = pile(&mut w, 3, 4, slot(ITEM_DEAD_DRONE, 1));
    builder(&mut w);
    assert!(!w.craft_items(Tile { x: 3, y: 4 }, 1));
    assert!(!w.craft_items(Tile { x: 3, y: 4 }, 2));
    assert_eq!(w.feral_data[id.0].slots, [some(ITEM_DEAD_DRONE, 1), None, None, None]);
    assert!(!w.craft_items(Tile { x: 9, y: 9 }, 0));
    assert!(w.craft_items(Tile { x: 3, y: 4 }, 0));
    assert_eq!(w.feral_data[id.0].slots, [some(ITEM_SCRAP, 1), some(ITEM_BATTERY, 1), None, None]);
    assert!(!w.craft_items(Tile { x: 3, y: 4 }, 0));
    assert_eq!(w.feral_data[id.0].slots, [some(ITEM_SCRAP, 1), some(ITEM_BATTERY, 1), None, None]);
}

#[test]
fn nothing_is_crafted_on_a_rail() {
    let mut w = world();
    let id = pile(&mut w, 3, 12, slot(ITEM_DEAD_DRONE, 1));
    pile(&mut w, 3, 12, slot(ITEM_SCRAP, 5));
    builder(&mut w);
    assert!(!w.craft_items(Tile { x: 3, y: 12 }, 0));
    assert_eq!(w.craft_machine(Tile { x: 3, y: 12 }, 5), None);
    assert_eq!(w.workbench_at(Tile { x: 3, y: 12 }), None);
    assert_eq!(w.feral_data[id.0].slots, [some(ITEM_DEAD_DRONE, 1), some(ITEM_SCRAP, 5), None, None]);
}

#[test]
fn craft_machine_puts_the_machine_in_the_hands() {
    let mut w = world();
    let id = pile(&mut w, 3, 4, slot(ITEM_SCRAP, 10));
    pile(&mut w, 3, 4, slot(ITEM_BATTERY, 4));
    w.advance_clock(5_000);
    builder(&mut w);
    assert_eq!(w.craft_machine(Tile { x: 3, y: 4 }, 7), None);
    assert_eq!(w.tool, ToolMode::Construct(Drag::Nothing));
    let belt = w.craft_machine(Tile { x: 3, y: 4 }, 6).unwrap();
    assert_eq!(belt, MachineId(0));
    assert_eq!(w.tool, ToolMode::Construct(Drag::Machine(belt)));
    assert_eq!(w.feral_data[id.0].slots, [some(ITEM_SCRAP, 6), None, None, None]);
    assert_eq!(w.mach_data.len(), w.mach_ids.capacity());
    assert_eq!(
        w.mach_data[0],
        Machine {
            pos: None,
            dir: Dir::Right,
            spec: MachineSpec::Conveyor {
                item: ItemSlot::default(),
                filter: false,
                can_move_time_us: 5_000,
                can_dump_time_us: 5_000,
            },
        }
    );
    assert!(w.mach_ids.is_active(belt));
}

#[test]
fn craft_machine_removes_a_pile_it_uses_up() {
    let mut w = world();
    let id = pile(&mut w, 3, 4, slot(ITEM_SCRAP, 2));
    builder(&mut w);
    let turret = w.craft_machine(Tile { x: 3, y: 4 }, 5).unwrap();
    assert_eq!(w.mach_data[turret.0].spec, MachineSpec::Turret { ammo: 0, can_fire_time_us: 0 });
    assert!(!w.feral_ids.is_active(id));
    assert_eq!(w.thing_at(Tile { x: 3, y: 4 }), TileThing::Nothing);

    let mut w = world();
    pile(&mut w, 3, 4, slot(ITEM_SCRAP, 4));
    pile(&mut w, 3, 4, slot(ITEM_BATTERY, 5));
    pile(&mut w, 3, 4, slot(ITEM_ALIGNITE, 1));
    builder(&mut w);
    let filter = w.craft_machine(Tile { x: 3, y: 4 }, 7).unwrap();
    assert!(matches!(w.mach_data[filter.0].spec, MachineSpec::Conveyor { filter: true, .. }));
    assert_eq!(slots_at(&w, 3, 4), Some([some(ITEM_BATTERY, 1), None, None, None]));
}

#[test]
fn machines_are_put_down_turned_and_picked_up() {
    let mut w = world();
    pile(&mut w, 3, 4, slot(ITEM_SCRAP, 2));
    pile(&mut w, 7, 7, slot(ITEM_SCRAP, 1));
    builder(&mut w);
    let turret = w.craft_machine(Tile { x: 3, y: 4 }, 5).unwrap();
    w.rotate_carried();
    assert_eq!(w.mach_data[turret.0].dir, Dir::Up);
    w.rotate_carried();
    w.rotate_carried();
    assert_eq!(w.mach_data[turret.0].dir, Dir::Down);
    w.rotate_carried();
    w.rotate_carried();
    assert_eq!(w.mach_data[turret.0].dir, Dir::Up);
    // not on a pile, not on a rail
    assert!(!w.put_down_machine(Tile { x: 7, y: 7 }));
    assert!(!w.put_down_machine(Tile { x: 30, y: 12 }));
    assert_eq!(w.tool, ToolMode::Construct(Drag::Machine(turret)));
    assert!(w.put_down_machine(Tile { x: 30, y: 13 }));
    assert_eq!(w.tool, ToolMode::Construct(Drag::Nothing));
    assert_eq!(w.mach_data[turret.0].pos, Some(Tile { x: 30, y: 13 }));
    assert_eq!(w.thing_at(Tile { x: 30, y: 13 }), TileThing::Machine(turret));
    // turning does nothing with empty hands
    w.rotate_carried();
    assert_eq!(w.mach_data[turret.0].dir, Dir::Up);
    assert!(w.pick_up(Tile { x: 30, y: 13 }));
    assert_eq!(w.tool, ToolMode::Construct(Drag::Machine(turret)));
    assert_eq!(w.mach_data[turret.0].pos, None);
    assert_eq!(w.thing_at(Tile { x: 30, y: 13 }), TileThing::Nothing);
}

#[test]
fn reload_gun_takes_bullets_up_to_the_magazine() {
    let mut w = world();
    let id = pile(&mut w, 3, 4, slot(ITEM_BULLET, 69));
    pile(&mut w, 3, 4, slot(ITEM_SCRAP, 1));
    pile(&mut w, 3, 4, slot(ITEM_BULLET, 69));
    assert_eq!(w.feral_data[id.0].slots, [some(ITEM_BULLET, 69), some(ITEM_SCRAP, 1), some(ITEM_BULLET, 69), None]);
    assert_eq!(w.reload_gun(Tile { x: 9, y: 9 }), 0);
    assert_eq!(w.reload_gun(Tile { x: 3, y: 4 }), 132);
    assert_eq!(PLAYER_GUN_AMMO_MAX, 132);
    assert_eq!(w.player_gun_ammo, 132);
    assert_eq!(w.feral_data[id.0].slots, [some(ITEM_SCRAP, 1), some(ITEM_BULLET, 6), None, None]);
    assert_eq!(w.reload_gun(Tile { x: 3, y: 4 }), 0);
    w.player_gun_ammo = 130;
    assert_eq!(w.reload_gun(Tile { x: 3, y: 4 }), 2);
    assert_eq!(w.player_gun_ammo, 132);
    assert_eq!(w.feral_data[id.0].slots, [some(ITEM_SCRAP, 1), some(ITEM_BULLET, 4), None, None]);
}

#[test]
fn reload_gun_removes_a_pile_it_empties() {
    let mut w = world();
    let id = pile(&mut w, 3, 4, slot(ITEM_BULLET, 30));
    assert_eq!(w.reload_gun(Tile { x: 3, y: 4 }), 30);
    assert_eq!(w.player_gun_ammo, 30);
    assert!(!w.feral_ids.is_active(id));
    assert_eq!(w.thing_at(Tile { x: 3, y: 4 }), TileThing::Nothing);
    assert!(w.feral_by_tile.is_empty());
}

#[test]
fn fire_gun_uses_ammunition() {
    let mut w = world();
    assert_eq!(w.fire_gun(), None);
    w.player_gun_ammo = 2;
    assert_eq!(w.fire_gun(), Some(BulletId(0)));
    assert_eq!(w.fire_gun(), Some(BulletId(1)));
    assert_eq!(w.fire_gun(), None);
    assert_eq!(w.player_gun_ammo, 0);
    assert_eq!(w.player_gun_consecutive, 2);
    w.rest_gun();
    assert_eq!(w.player_gun_consecutive, 0);
    w.player_gun_ammo = 2;
    w.cycle_tool();
    assert_eq!(w.fire_gun(), None);
    assert_eq!(w.player_gun_ammo, 2);
}

#[test]
fn craft_obfuscation_reroutes_and_uses_the_charge() {
    let mut w = world();
    let id = pile(&mut w, 40, 11, slot(ITEM_OBFUSCATOR, 1));
    builder(&mut w);
    let stuck = |_: u32, _: (usize, usize), _: (usize, usize), _: Dir| Dir::Left;
    assert!(!w.craft_obfuscation(Tile { x: 40, y: 11 }, &stuck));
    assert_eq!(w.rail.len(), 80);
    assert!(w.feral_ids.is_active(id));
    assert_eq!(w.feral_data[id.0].slots, [some(ITEM_OBFUSCATOR, 1), None, None, None]);

    let pick = |steps: u32, _: (usize, usize), _: (usize, usize), _: Dir| match steps {
        0 => Dir::Down,
        5 => Dir::Up,
        _ => Dir::Right,
    };
    assert!(w.craft_obfuscation(Tile { x: 40, y: 11 }, &pick));
    assert_eq!(w.rail.len(), 82);
    assert_eq!(w.rail[39], Rail { pos: Tile { x: 38, y: 13 }, dir: Dir::Down, bend: Bend::Left });
    assert!(!w.feral_ids.is_active(id));
    assert_eq!(w.thing_at(Tile { x: 40, y: 11 }), TileThing::Nothing);
    assert_eq!(w.rail_by_tile.get(&(38, 13)), Some(&39));
    assert_eq!(w.rail_by_tile.get(&(40, 12)), None);
    assert_eq!(w.rail_by_tile.get(&(43, 12)), Some(&45));
    assert_eq!(w.rail_by_tile.len(), 82);
    // no second charge
    assert!(!w.craft_obfuscation(Tile { x: 40, y: 11 }, &pick));
}

#[test]
fn craft_obfuscation_needs_a_charge() {
    let mut w = world();
    pile(&mut w, 40, 11, slot(ITEM_SCRAP, 1));
    builder(&mut w);
    let pick = |_: u32, _: (usize, usize), _: (usize, usize), _: Dir| Dir::Right;
    assert!(!w.craft_obfuscation(Tile { x: 40, y: 11 }, &pick));
    assert!(!w.craft_obfuscation(Tile { x: 41, y: 11 }, &pick));
    assert_eq!(slots_at(&w, 40, 11), Some([some(ITEM_SCRAP, 1), None, None, None]));
}

#[test]
fn removals_wait_for_the_next_step() {
    let mut w = world();
    let a = spawn_drone(&mut w.drone_ids, &mut w.drone_by_x, -10_000);
    let b = spawn_drone(&mut w.drone_ids, &mut w.drone_by_x, -10_000);
    assert_eq!((a, b), (DroneId(0), DroneId(1)));
    assert_eq!(w.drone_by_x, vec![(a, -10_000), (b, -10_000)]);
    w.player_gun_ammo = 1;
    let shot = w.fire_gun().unwrap();
    resolve_hit(
        false,
        a,
        shot,
        Tile { x: 5, y: 12 },
        &mut w.remove_drones,
        &mut w.remove_bullets,
        &w.itemtype_data,
        &mut w.feral_ids,
        &mut w.feral_data,
        &mut w.feral_by_tile,
    );
    assert!(w.remove_drones.is_empty() && w.remove_bullets.is_empty());
    assert_eq!(w.thing_at(Tile { x: 5, y: 12 }), TileThing::Nothing);
    resolve_hit(
        true,
        a,
        shot,
        Tile { x: 5, y: 12 },
        &mut w.remove_drones,
        &mut w.remove_bullets,
        &w.itemtype_data,
        &mut w.feral_ids,
        &mut w.feral_data,
        &mut w.feral_by_tile,
    );
    assert_eq!(w.remove_drones, vec![a]);
    assert_eq!(w.remove_bullets, vec![shot]);
    assert_eq!(slots_at(&w, 5, 12), Some([some(ITEM_DEAD_DRONE, 1), None, None, None]));
    // both are still there until the next step begins
    assert!(w.drone_ids.is_active(a));
    assert!(w.bullet_ids.is_active(shot));
    w.begin_step();
    assert!(!w.drone_ids.is_active(a));
    assert!(w.drone_ids.is_active(b));
    assert!(!w.bullet_ids.is_active(shot));
    assert!(w.remove_drones.is_empty() && w.remove_bullets.is_empty());
    let xs = vec![7i64; 512];
    w.refresh_drones(&xs);
    assert_eq!(w.drone_by_x, vec![(b, 7)]);
    // the freed handle is given out again
    assert_eq!(spawn_drone(&mut w.drone_ids, &mut w.drone_by_x, 3), a);
}

#[test]
fn apply_removals_releases_each_handle_once() {
    let mut w = world();
    for _ in 0..5 {
        spawn_drone(&mut w.drone_ids, &mut w.drone_by_x, 0);
    }
    let mut gone = vec![DroneId(3), DroneId(1), DroneId(3), DroneId(60)];
    apply_removals(&mut w.drone_ids, &mut gone);
    assert!(gone.is_empty());
    let mut left = Vec::new();
    let mut it = w.drone_ids.iter_ids();
    while let Some(id) = it.next() {
        left.push(id.0);
    }
    assert_eq!(left, vec![0, 2, 4]);
}

#[test]
fn step_machines_lets_turrets_fire_and_conveyors_move() {
    let mut w = world();
    // a turret at (10, 10) that looks right, with a drone in sight
    pile(&mut w, 1, 1, slot(ITEM_SCRAP, 2));
    builder(&mut w);
    let turret = w.craft_machine(Tile { x: 1, y: 1 }, 5).unwrap();
    assert!(w.put_down_machine(Tile { x: 10, y: 10 }));
    w.mach_data[turret.0].spec = MachineSpec::Turret { ammo: 3, can_fire_time_us: 0 };
    // a conveyor at (20, 20) that looks right, with scrap behind it
    pile(&mut w, 1, 1, slot(ITEM_SCRAP, 4));
    pile(&mut w, 1, 1, slot(ITEM_BATTERY, 4));
    let belt = w.craft_machine(Tile { x: 1, y: 1 }, 6).unwrap();
    assert!(w.put_down_machine(Tile { x: 20, y: 20 }));
    pile(&mut w, 19, 20, slot(ITEM_SCRAP, 1));
    // a machine in the hands does nothing
    pile(&mut w, 1, 1, slot(ITEM_SCRAP, 2));
    let carried = w.craft_machine(Tile { x: 1, y: 1 }, 5).unwrap();
    w.mach_data[carried.0].spec = MachineSpec::Turret { ammo: 3, can_fire_time_us: 0 };

    let drone = spawn_drone(&mut w.drone_ids, &mut w.drone_by_x, 0);
    let mut xs = vec![0i64; 512];
    let mut ys = vec![0i64; 512];
    xs[drone.0] = 13 * 64;
    ys[drone.0] = 10 * 64 + 32;
    w.refresh_drones(&xs);
    let sight = |pos: Tile, dir: Dir| {
        assert_eq!(dir, Dir::Right);
        let x = pos.x as i64 * 64 + 32;
        let y = pos.y as i64 * 64 + 32;
        (x, x + 5 * 64, y - 38, y + 38)
    };

    w.advance_clock(1_000);
    let shots = w.step_machines(&ys, &sight);
    assert_eq!(shots, vec![(turret, BulletId(0))]);
    assert_eq!(w.mach_data[turret.0].spec, MachineSpec::Turret { ammo: 2, can_fire_time_us: 1_500_000 });
    assert_eq!(w.mach_data[carried.0].spec, MachineSpec::Turret { ammo: 3, can_fire_time_us: 0 });
    assert_eq!(
        w.mach_data[belt.0].spec,
        MachineSpec::Conveyor {
            item: slot(ITEM_SCRAP, 1),
            filter: false,
            can_move_time_us: 1_000 + CONVEY_TAKE_PERIOD,
            can_dump_time_us: 1_000 + CONVEY_DUMP_PERIOD,
        }
    );
    assert_eq!(w.thing_at(Tile { x: 19, y: 20 }), TileThing::Nothing);

    // nothing is due right away
    assert!(w.step_machines(&ys, &sight).is_empty());
    w.advance_clock(CONVEY_DUMP_PERIOD + 1);
    assert!(w.step_machines(&ys, &sight).is_empty());
    assert_eq!(slots_at(&w, 21, 20), Some([some(ITEM_SCRAP, 1), None, None, None]));
    w.advance_clock(1_500_000);
    assert_eq!(w.step_machines(&ys, &sight), vec![(turret, BulletId(1))]);
    assert_eq!(w.mach_data[turret.0].spec, MachineSpec::Turret { ammo: 1, can_fire_time_us: 3_000_000 });
    // the drone moves out of sight
    ys[drone.0] = 12 * 64;
    w.advance_clock(1_500_000);
    assert!(w.step_machines(&ys, &sight).is_empty());
}
