use obfuscation::game::{
    BulletId, Dir, DroneId, FeralItem, FeralItemId, ItemSlot, ItemType, ItemTypeId, Machine,
    MachineId, MachineSpec, Tile, ITEM_ALIGNITE, ITEM_BATTERY, ITEM_BULLET, ITEM_CLUMP,
    ITEM_DEAD_DRONE, ITEM_OBFUSCATOR, ITEM_SCRAP,
};
use obfuscation::items::place_item;
use obfuscation::lgrn::IdReg;
use obfuscation::machine::{
    chances_from, conveyor_dump, conveyor_dump_random, conveyor_take, draw_chances, ground_dump,
    neighbour,
    offer_item, turret_reschedule, turret_step, Chances, GroundDump, CONVEY_DUMP_PERIOD,
    CONVEY_TAKE_PERIOD, TURRET_PERIOD,
};
use std::collections::BTreeMap;

fn catalog() -> Vec<ItemType> {
    let stack = [1u32, 69, 69, 69, 69, 69, 1, 1];
    (0..8).map(|i| ItemType { stackable: stack[i], name: "", desc: "" }).collect()
}

fn some(itemtype: usize, count: u32) -> Option<ItemSlot> {
    Some(ItemSlot { itemtype: ItemTypeId(itemtype), count })
}

fn slot(itemtype: usize, count: u32) -> ItemSlot {
    ItemSlot { itemtype: ItemTypeId(itemtype), count }
}

const WORLD: Tile = Tile { x: 80, y: 25 };
const NO_CHANCE: Chances = Chances { disassemble: false, bonus: false, misalign: false };

struct Field {
    types: Vec<ItemType>,
    ids: IdReg<FeralItemId>,
    data: Vec<FeralItem>,
    by_tile: BTreeMap<(u8, u8), FeralItemId>,
    machs: Vec<Machine>,
    mach_by_tile: BTreeMap<(u8, u8), MachineId>,
}

impl Field {
    fn new() -> Field {
        let mut ids: IdReg<FeralItemId> = Default::default();
        ids.resize(32);
        Field {
            types: catalog(),
            ids,
            data: Vec::new(),
            by_tile: BTreeMap::new(),
            machs: Vec::new(),
            mach_by_tile: BTreeMap::new(),
        }
    }

    fn pile(&mut self, x: u32, y: u32, s: ItemSlot) -> FeralItemId {
        place_item(&self.types, &mut self.ids, &mut self.data, &mut self.by_tile, Tile { x, y }, s)
            .unwrap()
    }

    fn machine(&mut self, x: u32, y: u32, dir: Dir, spec: MachineSpec) -> MachineId {
        let id = MachineId(self.machs.len());
        self.machs.push(Machine { pos: Some(Tile { x, y }), dir, spec });
        self.mach_by_tile.insert((x as u8, y as u8), id);
        id
    }

    fn take(&mut self, mach: MachineId, now: u64) -> bool {
        let mut m = self.machs[mach.0];
        let r = conveyor_take(
            &self.types,
            WORLD,
            now,
            &mut m,
            &mut self.ids,
            &mut self.data,
            &mut self.by_tile,
        );
        self.machs[mach.0] = m;
        r
    }

    fn dump(&mut self, mach: MachineId, now: u64, chances: Chances) -> bool {
        conveyor_dump(
            &self.types,
            WORLD,
            now,
            mach,
            &mut self.machs,
            &self.mach_by_tile,
            &mut self.ids,
            &mut self.data,
            &mut self.by_tile,
            chances,
        )
    }

    fn slots_at(&self, x: u8, y: u8) -> Option<[Option<ItemSlot>; 4]> {
        self.by_tile.get(&(x, y)).map(|id| self.data[id.0].slots)
    }
}

fn conveyor(item: ItemSlot, filter: bool, can_move: u64, can_dump: u64) -> MachineSpec {
    MachineSpec::Conveyor { item, filter, can_move_time_us: can_move, can_dump_time_us: can_dump }
}

fn empty_conveyor() -> MachineSpec {
    conveyor(ItemSlot::default(), false, 0, 0)
}

#[test]
fn turret_reschedule_keeps_the_cadence() {
    assert_eq!(TURRET_PERIOD, 1_500_000);
    assert_eq!(turret_reschedule(1_000_001, 1_000_000), 2_500_000);
    assert_eq!(turret_reschedule(4_200_000, 1_000_000), 5_500_000);
    // exactly one period late: a whole period from now
    assert_eq!(turret_reschedule(2_500_000, 1_000_000), 4_000_000);
    assert_eq!(turret_reschedule(2_499_999, 1_000_000), 2_500_000);
    assert_eq!(turret_reschedule(1, 0), 1_500_000);
}

#[test]
fn turret_step_fires_at_a_drone_in_its_box() {
    let mut bullets: IdReg<BulletId> = Default::default();
    bullets.resize(128);
    let index = vec![(DroneId(0), 10i64), (DroneId(1), 500)];
    let ys = vec![20i64, 20];
    let mut turret = Machine {
        pos: Some(Tile { x: 1, y: 1 }),
        dir: Dir::Right,
        spec: MachineSpec::Turret { ammo: 2, can_fire_time_us: 1_000_000 },
    };
    // not yet due
    assert_eq!(turret_step(&mut turret, 1_000_000, &mut bullets, &index, &ys, 400, 600, 0, 40), None);
    // no drone in the box
    assert_eq!(turret_step(&mut turret, 1_200_000, &mut bullets, &index, &ys, 100, 400, 0, 40), None);
    assert_eq!(turret_step(&mut turret, 1_200_000, &mut bullets, &index, &ys, 400, 600, 20, 40), None);
    assert_eq!(turret.spec, MachineSpec::Turret { ammo: 2, can_fire_time_us: 1_000_000 });
    // fires
    assert_eq!(
        turret_step(&mut turret, 1_200_000, &mut bullets, &index, &ys, 400, 600, 0, 40),
        Some(BulletId(0))
    );
    assert_eq!(turret.spec, MachineSpec::Turret { ammo: 1, can_fire_time_us: 2_500_000 });
    assert!(bullets.is_active(BulletId(0)));
    // cooling down
    assert_eq!(turret_step(&mut turret, 2_500_000, &mut bullets, &index, &ys, 400, 600, 0, 40), None);
    assert_eq!(
        turret_step(&mut turret, 2_600_000, &mut bullets, &index, &ys, 400, 600, 0, 40),
        Some(BulletId(1))
    );
    assert_eq!(turret.spec, MachineSpec::Turret { ammo: 0, can_fire_time_us: 4_000_000 });
    // out of ammunition
    assert_eq!(turret_step(&mut turret, 9_000_000, &mut bullets, &index, &ys, 400, 600, 0, 40), None);
    assert_eq!(turret.pos, Some(Tile { x: 1, y: 1 }));
    assert_eq!(turret.dir, Dir::Right);
}

#[test]
fn turret_step_needs_a_free_projectile_handle() {
    let mut bullets: IdReg<BulletId> = Default::default();
    bullets.resize(64);
    for _ in 0..64 {
        let _ = bullets.create();
    }
    let index = vec![(DroneId(0), 10i64)];
    let ys = vec![20i64];
    let mut turret = Machine {
        pos: Some(Tile { x: 1, y: 1 }),
        dir: Dir::Up,
        spec: MachineSpec::Turret { ammo: 5, can_fire_time_us: 0 },
    };
    assert_eq!(turret_step(&mut turret, 10, &mut bullets, &index, &ys, 0, 20, 0, 40), None);
    assert_eq!(turret.spec, MachineSpec::Turret { ammo: 5, can_fire_time_us: 0 });
    bullets.remove(BulletId(17));
    assert_eq!(
        turret_step(&mut turret, 10, &mut bullets, &index, &ys, 0, 20, 0, 40),
        Some(BulletId(17))
    );
    // a conveyor never fires
    let mut other = Machine { pos: Some(Tile { x: 1, y: 1 }), dir: Dir::Up, spec: empty_conveyor() };
    bullets.remove(BulletId(3));
    assert_eq!(turret_step(&mut other, 10, &mut bullets, &index, &ys, 0, 20, 0, 40), None);
}

#[test]
fn neighbour_stays_in_the_world() {
    let pos = Tile { x: 0, y: 24 };
    assert_eq!(neighbour(pos, Dir::Right, false, WORLD), Some(Tile { x: 1, y: 24 }));
    assert_eq!(neighbour(pos, Dir::Right, true, WORLD), None);
    assert_eq!(neighbour(pos, Dir::Left, false, WORLD), None);
    assert_eq!(neighbour(pos, Dir::Left, true, WORLD), Some(Tile { x: 1, y: 24 }));
    assert_eq!(neighbour(pos, Dir::Down, false, WORLD), None);
    assert_eq!(neighbour(pos, Dir::Up, false, WORLD), Some(Tile { x: 0, y: 23 }));
    assert_eq!(neighbour(Tile { x: 79, y: 0 }, Dir::Right, false, WORLD), None);
    assert_eq!(neighbour(Tile { x: 79, y: 0 }, Dir::Down, true, WORLD), None);
}

#[test]
fn offer_item_to_turret_and_conveyor() {
    let mut turret = Machine {
        pos: None,
        dir: Dir::Left,
        spec: MachineSpec::Turret { ammo: 68, can_fire_time_us: 5 },
    };
    assert!(!offer_item(&mut turret, ItemTypeId(ITEM_SCRAP), 100));
    assert!(offer_item(&mut turret, ItemTypeId(ITEM_BULLET), 100));
    assert_eq!(turret.spec, MachineSpec::Turret { ammo: 69, can_fire_time_us: 5 });
    assert!(!offer_item(&mut turret, ItemTypeId(ITEM_BULLET), 100));
    assert_eq!(turret.spec, MachineSpec::Turret { ammo: 69, can_fire_time_us: 5 });

    let mut belt = Machine { pos: None, dir: Dir::Left, spec: conveyor(slot(ITEM_CLUMP, 0), true, 7, 8) };
    assert!(offer_item(&mut belt, ItemTypeId(ITEM_SCRAP), 100));
    assert_eq!(belt.spec, conveyor(slot(ITEM_SCRAP, 1), true, 7, 100 + CONVEY_DUMP_PERIOD));
    assert!(!offer_item(&mut belt, ItemTypeId(ITEM_SCRAP), 200));
    let mut blank = Machine::default();
    assert!(!offer_item(&mut blank, ItemTypeId(ITEM_SCRAP), 100));
    assert_eq!(blank, Machine::default());
}

#[test]
fn conveyor_takes_from_the_front_slot_behind_it() {
    let mut f = Field::new();
    let pile = f.pile(4, 5, slot(ITEM_SCRAP, 2));
    f.pile(4, 5, slot(ITEM_BULLET, 9));
    let belt = f.machine(5, 5, Dir::Right, conveyor(ItemSlot::default(), false, 1000, 0));
    // cooling down
    assert!(!f.take(belt, 1000));
    assert_eq!(f.machs[belt.0].spec, conveyor(ItemSlot::default(), false, 1000, 0));
    assert!(f.take(belt, 1001));
    assert_eq!(
        f.machs[belt.0].spec,
        conveyor(slot(ITEM_SCRAP, 1), false, 1001 + CONVEY_TAKE_PERIOD, 1001 + CONVEY_DUMP_PERIOD)
    );
    assert_eq!(f.data[pile.0].slots, [some(ITEM_SCRAP, 1), some(ITEM_BULLET, 9), None, None]);
    // holds an item: takes no more
    assert!(!f.take(belt, 9_000_000));
    assert_eq!(f.data[pile.0].slots, [some(ITEM_SCRAP, 1), some(ITEM_BULLET, 9), None, None]);
    f.machs[belt.0].spec = conveyor(slot(ITEM_SCRAP, 0), false, 0, 0);
    assert!(f.take(belt, 5));
    assert_eq!(f.data[pile.0].slots, [some(ITEM_BULLET, 9), None, None, None]);
    assert!(f.ids.is_active(pile));
}

#[test]
fn conveyor_take_removes_a_pile_it_empties() {
    let mut f = Field::new();
    let pile = f.pile(5, 4, slot(ITEM_DEAD_DRONE, 1));
    let belt = f.machine(5, 5, Dir::Down, empty_conveyor());
    assert!(f.take(belt, 77));
    assert_eq!(
        f.machs[belt.0].spec,
        conveyor(slot(ITEM_DEAD_DRONE, 1), false, 77 + CONVEY_TAKE_PERIOD, 77 + CONVEY_DUMP_PERIOD)
    );
    assert!(!f.ids.is_active(pile));
    assert!(f.by_tile.is_empty());
    assert_eq!(f.data[pile.0].slots, [None, None, None, None]);
}

#[test]
fn conveyor_take_looks_behind_itself_only() {
    for (dir, x, y) in [(Dir::Right, 4, 5), (Dir::Left, 6, 5), (Dir::Down, 5, 4), (Dir::Up, 5, 6)] {
        let mut f = Field::new();
        f.pile(4, 5, slot(ITEM_SCRAP, 1));
        f.pile(6, 5, slot(ITEM_SCRAP, 1));
        f.pile(5, 4, slot(ITEM_SCRAP, 1));
        f.pile(5, 6, slot(ITEM_SCRAP, 1));
        let belt = f.machine(5, 5, dir, empty_conveyor());
        assert!(f.take(belt, 1));
        assert_eq!(f.by_tile.len(), 3);
        assert_eq!(f.by_tile.get(&(x, y)), None);
    }
    // nothing behind: nothing happens, not even to the cooldowns
    let mut f = Field::new();
    f.pile(6, 5, slot(ITEM_SCRAP, 1));
    let belt = f.machine(5, 5, Dir::Right, empty_conveyor());
    assert!(!f.take(belt, 1));
    assert_eq!(f.machs[belt.0].spec, empty_conveyor());
    let edge = f.machine(0, 5, Dir::Right, empty_conveyor());
    assert!(!f.take(edge, 1));
    // a machine that is carried does nothing
    f.machs[belt.0].pos = None;
    f.machs[belt.0].dir = Dir::Left;
    assert!(!f.take(belt, 1));
}

#[test]
fn conveyor_with_filter_takes_its_type_only() {
    let mut f = Field::new();
    let pile = f.pile(4, 5, slot(ITEM_SCRAP, 2));
    f.pile(4, 5, slot(ITEM_BULLET, 1));
    let belt = f.machine(5, 5, Dir::Right, conveyor(slot(ITEM_BULLET, 0), true, 0, 0));
    assert!(f.take(belt, 10));
    assert_eq!(
        f.machs[belt.0].spec,
        conveyor(slot(ITEM_BULLET, 1), true, 10 + CONVEY_TAKE_PERIOD, 10 + CONVEY_DUMP_PERIOD)
    );
    assert_eq!(f.data[pile.0].slots, [some(ITEM_SCRAP, 2), None, None, None]);
    // none of its type left: takes nothing, but the cooldowns are set
    f.machs[belt.0].spec = conveyor(slot(ITEM_BULLET, 0), true, 0, 0);
    assert!(!f.take(belt, 20));
    assert_eq!(
        f.machs[belt.0].spec,
        conveyor(slot(ITEM_BULLET, 0), true, 20 + CONVEY_TAKE_PERIOD, 20 + CONVEY_DUMP_PERIOD)
    );
    assert_eq!(f.data[pile.0].slots, [some(ITEM_SCRAP, 2), None, None, None]);
    // a filter that was never set takes anything and is set by it
    f.machs[belt.0].spec = conveyor(ItemSlot::default(), true, 0, 0);
    assert!(f.take(belt, 30));
    assert_eq!(
        f.machs[belt.0].spec,
        conveyor(slot(ITEM_SCRAP, 1), true, 30 + CONVEY_TAKE_PERIOD, 30 + CONVEY_DUMP_PERIOD)
    );
}

#[test]
fn conveyor_dumps_on_the_ground_in_front() {
    let mut f = Field::new();
    let belt = f.machine(5, 5, Dir::Right, conveyor(slot(ITEM_SCRAP, 1), false, 0, 500));
    // cooling down
    assert!(!f.dump(belt, 500, NO_CHANCE));
    assert!(f.by_tile.is_empty());
    assert!(f.dump(belt, 501, NO_CHANCE));
    assert_eq!(f.machs[belt.0].spec, conveyor(slot(ITEM_SCRAP, 0), false, 0, 501 + CONVEY_DUMP_PERIOD));
    assert_eq!(f.slots_at(6, 5), Some([some(ITEM_SCRAP, 1), None, None, None]));
    // empty: dumps nothing
    assert!(!f.dump(belt, 1_000_000, NO_CHANCE));
    // stacks onto the pile
    f.machs[belt.0].spec = conveyor(slot(ITEM_SCRAP, 1), true, 0, 0);
    assert!(f.dump(belt, 2_000_000, Chances { disassemble: true, bonus: true, misalign: true }));
    assert_eq!(f.slots_at(6, 5), Some([some(ITEM_SCRAP, 2), None, None, None]));
}

#[test]
fn conveyor_keeps_its_item_when_the_pile_is_full() {
    let mut f = Field::new();
    f.pile(6, 5, slot(ITEM_DEAD_DRONE, 1));
    f.pile(6, 5, slot(ITEM_CLUMP, 1));
    f.pile(6, 5, slot(ITEM_OBFUSCATOR, 1));
    f.pile(6, 5, slot(ITEM_SCRAP, 69));
    let belt = f.machine(5, 5, Dir::Right, conveyor(slot(ITEM_SCRAP, 1), false, 0, 0));
    assert!(!f.dump(belt, 100, NO_CHANCE));
    assert_eq!(f.machs[belt.0].spec, conveyor(slot(ITEM_SCRAP, 1), false, 0, 0));
    // at the edge of the world there is no tile in front
    let edge = f.machine(79, 5, Dir::Right, conveyor(slot(ITEM_SCRAP, 1), false, 0, 0));
    assert!(!f.dump(edge, 100, NO_CHANCE));
    assert_eq!(f.by_tile.len(), 1);
}

#[test]
fn conveyor_feeds_the_machine_in_front() {
    let mut f = Field::new();
    let belt = f.machine(5, 5, Dir::Down, conveyor(slot(ITEM_BULLET, 1), false, 3, 0));
    let turret = f.machine(5, 6, Dir::Up, MachineSpec::Turret { ammo: 0, can_fire_time_us: 9 });
    assert!(f.dump(belt, 40, Chances { disassemble: true, bonus: true, misalign: true }));
    assert_eq!(f.machs[turret.0].spec, MachineSpec::Turret { ammo: 1, can_fire_time_us: 9 });
    assert_eq!(f.machs[belt.0].spec, conveyor(slot(ITEM_BULLET, 0), false, 3, 40 + CONVEY_DUMP_PERIOD));
    assert!(f.by_tile.is_empty());
    // a turret takes bullets only, and nothing is dropped on it
    f.machs[belt.0].spec = conveyor(slot(ITEM_SCRAP, 1), false, 3, 0);
    assert!(!f.dump(belt, 50, NO_CHANCE));
    assert!(f.by_tile.is_empty());
    // a full turret takes nothing
    f.machs[belt.0].spec = conveyor(slot(ITEM_BULLET, 1), false, 3, 0);
    f.machs[turret.0].spec = MachineSpec::Turret { ammo: 69, can_fire_time_us: 9 };
    assert!(!f.dump(belt, 60, NO_CHANCE));
    assert_eq!(f.machs[belt.0].spec, conveyor(slot(ITEM_BULLET, 1), false, 3, 0));
}

#[test]
fn conveyor_hands_on_to_an_empty_conveyor() {
    let mut f = Field::new();
    let first = f.machine(5, 5, Dir::Left, conveyor(slot(ITEM_CLUMP, 1), false, 3, 0));
    let second = f.machine(4, 5, Dir::Left, conveyor(slot(ITEM_SCRAP, 0), true, 7, 8));
    assert!(f.dump(first, 40, NO_CHANCE));
    assert_eq!(f.machs[first.0].spec, conveyor(slot(ITEM_CLUMP, 0), false, 3, 40 + CONVEY_DUMP_PERIOD));
    assert_eq!(f.machs[second.0].spec, conveyor(slot(ITEM_CLUMP, 1), true, 7, 40 + CONVEY_DUMP_PERIOD));
    // the second is full now
    f.machs[first.0].spec = conveyor(slot(ITEM_CLUMP, 1), false, 3, 0);
    assert!(!f.dump(first, 50, NO_CHANCE));
    assert_eq!(f.machs[first.0].spec, conveyor(slot(ITEM_CLUMP, 1), false, 3, 0));
}

#[test]
fn ground_dump_follows_the_rules_in_order() {
    let all = Chances { disassemble: true, bonus: true, misalign: true };
    assert_eq!(ground_dump(false, slot(ITEM_DEAD_DRONE, 1), all), GroundDump::Disassemble);
    assert_eq!(ground_dump(false, slot(ITEM_CLUMP, 1), all), GroundDump::Misalign);
    assert_eq!(ground_dump(false, slot(ITEM_SCRAP, 1), all), GroundDump::Plain);
    assert_eq!(ground_dump(true, slot(ITEM_DEAD_DRONE, 1), all), GroundDump::Plain);
    assert_eq!(ground_dump(true, slot(ITEM_CLUMP, 1), all), GroundDump::Plain);
    assert_eq!(ground_dump(false, slot(ITEM_DEAD_DRONE, 2), all), GroundDump::Plain);
    assert_eq!(ground_dump(false, slot(ITEM_DEAD_DRONE, 1), NO_CHANCE), GroundDump::Plain);
    assert_eq!(
        ground_dump(false, slot(ITEM_DEAD_DRONE, 1), Chances { disassemble: false, bonus: true, misalign: true }),
        GroundDump::Plain
    );
    assert_eq!(
        ground_dump(false, slot(ITEM_CLUMP, 1), Chances { disassemble: true, bonus: true, misalign: false }),
        GroundDump::Plain
    );
}

#[test]
fn conveyor_takes_a_drone_apart_by_chance() {
    let mut f = Field::new();
    let belt = f.machine(5, 5, Dir::Right, conveyor(slot(ITEM_DEAD_DRONE, 1), false, 0, 0));
    assert!(f.dump(belt, 9, Chances { disassemble: true, bonus: false, misalign: false }));
    assert_eq!(f.slots_at(6, 5), Some([some(ITEM_SCRAP, 1), None, None, None]));
    assert_eq!(f.machs[belt.0].spec, conveyor(slot(ITEM_BATTERY, 1), false, 0, 9 + CONVEY_DUMP_PERIOD));

    f.machs[belt.0].spec = conveyor(slot(ITEM_DEAD_DRONE, 1), false, 0, 0);
    assert!(f.dump(belt, 9, Chances { disassemble: true, bonus: true, misalign: false }));
    assert_eq!(f.slots_at(6, 5), Some([some(ITEM_SCRAP, 2), some(ITEM_ALIGNITE, 1), None, None]));
    assert_eq!(f.machs[belt.0].spec, conveyor(slot(ITEM_BATTERY, 1), false, 0, 9 + CONVEY_DUMP_PERIOD));
}

#[test]
fn conveyor_misaligns_a_clump_by_chance() {
    let mut f = Field::new();
    let belt = f.machine(5, 5, Dir::Up, conveyor(slot(ITEM_CLUMP, 1), false, 0, 0));
    assert!(f.dump(belt, 9, Chances { disassemble: false, bonus: false, misalign: true }));
    assert_eq!(f.slots_at(5, 4), Some([some(ITEM_OBFUSCATOR, 1), None, None, None]));
    assert_eq!(f.machs[belt.0].spec, conveyor(slot(ITEM_CLUMP, 0), false, 0, 9 + CONVEY_DUMP_PERIOD));
    // an obfuscator charge does not stack: the second goes to the next slot
    f.machs[belt.0].spec = conveyor(slot(ITEM_CLUMP, 1), false, 0, 0);
    assert!(f.dump(belt, 9, Chances { disassemble: false, bonus: false, misalign: true }));
    assert_eq!(f.slots_at(5, 4), Some([some(ITEM_OBFUSCATOR, 1), some(ITEM_OBFUSCATOR, 1), None, None]));
}

#[test]
fn disassembly_that_cannot_place_its_scrap_keeps_the_drone() {
    let mut f = Field::new();
    f.pile(6, 5, slot(ITEM_DEAD_DRONE, 1));
    f.pile(6, 5, slot(ITEM_CLUMP, 1));
    f.pile(6, 5, slot(ITEM_OBFUSCATOR, 1));
    f.pile(6, 5, slot(ITEM_ALIGNITE, 68));
    let belt = f.machine(5, 5, Dir::Right, conveyor(slot(ITEM_DEAD_DRONE, 1), false, 0, 0));
    // the scrap finds no room, the crystal does
    assert!(!f.dump(belt, 9, Chances { disassemble: true, bonus: true, misalign: false }));
    assert_eq!(f.machs[belt.0].spec, conveyor(slot(ITEM_DEAD_DRONE, 1), false, 0, 0));
    assert_eq!(
        f.slots_at(6, 5),
        Some([some(ITEM_DEAD_DRONE, 1), some(ITEM_CLUMP, 1), some(ITEM_OBFUSCATOR, 1), some(ITEM_ALIGNITE, 69)])
    );
}

#[test]
fn conveyor_moves_a_destroyed_drone_from_behind_to_the_front() {
    // without the lucky draw the drone itself ends up in front
    let mut f = Field::new();
    f.pile(4, 5, slot(ITEM_DEAD_DRONE, 1));
    let belt = f.machine(5, 5, Dir::Right, empty_conveyor());
    let mut now = 1;
    assert!(f.take(belt, now));
    assert!(!f.dump(belt, now, NO_CHANCE));
    now += CONVEY_DUMP_PERIOD;
    assert!(!f.dump(belt, now, NO_CHANCE));
    now += 1;
    assert!(!f.take(belt, now));
    assert!(f.dump(belt, now, NO_CHANCE));
    assert_eq!(f.slots_at(4, 5), None);
    assert_eq!(f.slots_at(6, 5), Some([some(ITEM_DEAD_DRONE, 1), None, None, None]));
    assert_eq!(
        f.machs[belt.0].spec,
        conveyor(slot(ITEM_DEAD_DRONE, 0), false, 1 + CONVEY_TAKE_PERIOD, now + CONVEY_DUMP_PERIOD)
    );

    // with it the conveyor drops scrap and keeps a battery
    let mut f = Field::new();
    f.pile(4, 5, slot(ITEM_DEAD_DRONE, 1));
    let belt = f.machine(5, 5, Dir::Right, empty_conveyor());
    let lucky = Chances { disassemble: true, bonus: false, misalign: false };
    assert!(f.take(belt, 1));
    let now = 1 + 2 * CONVEY_TAKE_PERIOD;
    assert!(f.dump(belt, now, lucky));
    assert_eq!(f.slots_at(4, 5), None);
    assert_eq!(f.slots_at(6, 5), Some([some(ITEM_SCRAP, 1), None, None, None]));
    assert_eq!(
        f.machs[belt.0].spec,
        conveyor(slot(ITEM_BATTERY, 1), false, 1 + CONVEY_TAKE_PERIOD, now + CONVEY_DUMP_PERIOD)
    );
    // one dump period later the battery follows
    assert!(f.dump(belt, now + CONVEY_DUMP_PERIOD + 1, lucky));
    assert_eq!(f.slots_at(6, 5), Some([some(ITEM_SCRAP, 1), some(ITEM_BATTERY, 1), None, None]));
}

#[test]
fn draw_chances_draws_only_what_the_rules_ask_for() {
    macroquad::rand::srand(7);
    for _ in 0..500 {
        assert_eq!(draw_chances(false, slot(ITEM_SCRAP, 1)), NO_CHANCE);
        assert_eq!(draw_chances(true, slot(ITEM_DEAD_DRONE, 1)), NO_CHANCE);
        assert_eq!(draw_chances(true, slot(ITEM_CLUMP, 1)), NO_CHANCE);
        assert_eq!(draw_chances(false, slot(ITEM_DEAD_DRONE, 2)), NO_CHANCE);
        let c = draw_chances(false, slot(ITEM_CLUMP, 1));
        assert!(!c.disassemble && !c.bonus);
        let c = draw_chances(false, slot(ITEM_DEAD_DRONE, 1));
        assert!(!c.misalign);
        assert!(c.disassemble || !c.bonus);
    }
}

#[test]
fn chances_fall_about_as_often_as_they_should() {
    macroquad::rand::srand(12345);
    let mut apart = 0;
    let mut bonus = 0;
    let mut misaligned = 0;
    let n = 20_000;
    for _ in 0..n {
        let c = draw_chances(false, slot(ITEM_DEAD_DRONE, 1));
        apart += c.disassemble as u32;
        bonus += c.bonus as u32;
        misaligned += draw_chances(false, slot(ITEM_CLUMP, 1)).misalign as u32;
    }
    // 1 in 20, of those 1 in 5, and 1 in 200
    assert!(apart > 800 && apart < 1200, "{}", apart);
    assert!(bonus > 120 && bonus < 280, "{}", bonus);
    assert!(misaligned > 50 && misaligned < 150, "{}", misaligned);
}

#[test]
fn conveyor_dump_random_dumps_one_way_or_the_other() {
    macroquad::rand::srand(99);
    let mut scrap = 0;
    let mut drones = 0;
    for _ in 0..2000 {
        let mut f = Field::new();
        let belt = f.machine(5, 5, Dir::Right, conveyor(slot(ITEM_DEAD_DRONE, 1), false, 0, 0));
        let done = conveyor_dump_random(
            &f.types,
            WORLD,
            1,
            belt,
            &mut f.machs,
            &f.mach_by_tile,
            &mut f.ids,
            &mut f.data,
            &mut f.by_tile,
        );
        assert!(done);
        let slots = f.slots_at(6, 5).unwrap();
        if slots[0] == some(ITEM_SCRAP, 1) {
            scrap += 1;
            assert_eq!(f.machs[belt.0].spec, conveyor(slot(ITEM_BATTERY, 1), false, 0, 1 + CONVEY_DUMP_PERIOD));
            assert!(slots[1].is_none() || slots[1] == some(ITEM_ALIGNITE, 1));
        } else {
            drones += 1;
            assert_eq!(slots, [some(ITEM_DEAD_DRONE, 1), None, None, None]);
            assert_eq!(f.machs[belt.0].spec, conveyor(slot(ITEM_DEAD_DRONE, 0), false, 0, 1 + CONVEY_DUMP_PERIOD));
        }
    }
    assert!(scrap > 50 && scrap < 160, "{}", scrap);
    assert_eq!(scrap + drones, 2000);
}

#[test]
fn chances_follow_the_draws() {
    let drone = slot(ITEM_DEAD_DRONE, 1);
    let clump = slot(ITEM_CLUMP, 1);
    assert_eq!(chances_from(false, drone, 0, 1, 1), NO_CHANCE);
    assert_eq!(chances_from(false, drone, 2, 1, 1), NO_CHANCE);
    assert_eq!(
        chances_from(false, drone, 1, 0, 1),
        Chances { disassemble: true, bonus: false, misalign: false }
    );
    assert_eq!(
        chances_from(false, drone, 1, 1, 0),
        Chances { disassemble: true, bonus: true, misalign: false }
    );
    assert_eq!(
        chances_from(false, clump, 1, 1, 1),
        Chances { disassemble: false, bonus: false, misalign: true }
    );
    assert_eq!(chances_from(false, clump, 1, 1, 0), NO_CHANCE);
    assert_eq!(chances_from(false, clump, 1, 1, 199), NO_CHANCE);
    // a filter, a stack of two, or another item leave nothing to chance
    assert_eq!(chances_from(true, drone, 1, 1, 1), NO_CHANCE);
    assert_eq!(chances_from(true, clump, 1, 1, 1), NO_CHANCE);
    assert_eq!(chances_from(false, slot(ITEM_DEAD_DRONE, 2), 1, 1, 1), NO_CHANCE);
    assert_eq!(chances_from(false, slot(ITEM_SCRAP, 1), 1, 1, 1), NO_CHANCE);
}
