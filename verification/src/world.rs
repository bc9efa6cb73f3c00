//! The world: all the state of the simulation kept together, and the steps
//! and player actions that change it.

use crate::game::tile_key;
use crate::game::tile_key_of;
use crate::game::BulletId;
use crate::game::Burger;
use crate::game::Dir;
use crate::game::Drag;
use crate::game::DroneId;
use crate::game::FeralItem;
use crate::game::FeralItemId;
use crate::game::ItemSlot;
use crate::game::ItemType;
use crate::game::ItemTypeId;
use crate::game::Machine;
use crate::game::MachineId;
use crate::game::MachineSpec;
use crate::game::Rail;
use crate::game::Tile;
use crate::game::TileThing;
use crate::game::ToolMode;
use crate::game::ITEM_BULLET;
use crate::game::ITEM_DEAD_DRONE;
use crate::game::ITEM_OBFUSCATOR;
use crate::game::PLAYER_GUN_AMMO_MAX;
use crate::game::TURRET_AMMO_MAX;
use crate::items::active_at;
use crate::items::all_empty;
use crate::items::compacted;
use crate::items::drained;
use crate::items::feral_remove_if_empty;
use crate::items::craft_draft;
use crate::items::craft_fits;
use crate::items::craft_item_recipe;
use crate::items::craft_machine_recipe;
use crate::items::crafted;
use crate::items::ferals_wf;
use crate::items::is_machine_recipe;
use crate::items::item_recipe_out;
use crate::items::item_recipe_req;
use crate::items::lemma_crafted_sound;
use crate::items::machine_recipe_req;
use crate::items::req_met;
use crate::items::ferals_wf_but;
use crate::items::front_removed;
use crate::items::lemma_front_taken_sound;
use crate::items::lemma_stack_into_left;
use crate::items::lemma_take_sound;
use crate::items::pile_sound;
use crate::items::still_wanted;
use crate::items::take_front_slot;
use crate::items::take_items;
use crate::items::total_of;
use crate::tiles::tile_file;
use crate::tiles::tile_unfile;
use crate::lgrn::is_next_slot;
use crate::items::place_item;
use crate::items::placed;
use crate::lgrn::with_next_slot;
use crate::lgrn::has_free;
use crate::lgrn::is_first_free;
use crate::lgrn::IdReg;
use crate::machine::conveyor_dump_random;
use crate::machine::conveyor_take;
use crate::machine::lemma_dumped_machs_wf;
use crate::machine::lemma_machine_steps_ok;
use crate::machine::lemma_machs_changed;
use crate::machine::machine_acted;
use crate::machine::machine_ok;
use crate::machine::machines_acted;
use crate::machine::Scene;
use crate::machine::no_chances;
use crate::machine::take_source;
use crate::machine::turret_step;
use crate::machine::Chances;
use crate::machine::TIME_MAX;
use crate::spatial::entries_current;
use crate::spatial::entries_of;
use crate::spatial::rebuild_index;
use crate::spatial::sorted_by_x;
use crate::machine::machs_wf;
use crate::rail::is_reroute;
use crate::rail::rail_index;
use crate::rail::regen_rail_by_tile;
use crate::rail::rerouting;
use crate::rail::world_obfuscate;
use crate::spatial::Entry;
use crate::tiles::tile_lookup;
use std::collections::BTreeMap;
use vstd::prelude::*;

verus! {

/// All the state of the simulation that is counted in whole numbers. What is
/// measured in fractions (positions, speeds, travel) is kept beside it by
/// whoever drives the steps, in arrays with one place per handle.
pub struct GameMain {
    /// The world clock, in microseconds.
    pub time_us: u64,
    /// The number of tiles of the world along x and y.
    pub world_size: Tile,
    pub player_facing: i8,
    pub player_gun_consecutive: u32,
    pub player_gun_ammo: u32,
    pub hop_count: u64,
    pub rail: Vec<Rail>,
    pub rail_by_tile: BTreeMap<(u8, u8), u32>,
    pub drone_ids: IdReg<DroneId>,
    pub drone_by_x: Vec<Entry>,
    pub bullet_ids: IdReg<BulletId>,
    pub remove_drones: Vec<DroneId>,
    pub remove_bullets: Vec<BulletId>,
    pub itemtype_data: Vec<ItemType>,
    pub feral_ids: IdReg<FeralItemId>,
    pub feral_data: Vec<FeralItem>,
    pub feral_by_tile: BTreeMap<(u8, u8), FeralItemId>,
    pub mach_ids: IdReg<MachineId>,
    pub mach_data: Vec<Machine>,
    pub mach_by_tile: BTreeMap<(u8, u8), MachineId>,
    pub tool: ToolMode,
}

/// What the player carries is sound: items are at least one of a type of the
/// catalog, and a carried machine is active and stands on no tile.
pub open spec fn tool_ok(tool: ToolMode, n_types: nat, machs: Seq<bool>, mach_data: Seq<Machine>) -> bool {
    match tool {
        ToolMode::Construct(Drag::Item(slot)) => slot.count > 0 && slot.itemtype.0 < n_types,
        ToolMode::Construct(Drag::Machine(m)) => active_at(machs, m.0 as int) && m.0
            < mach_data.len() && mach_data[m.0 as int].pos is None,
        _ => true,
    }
}

impl GameMain {
    /// The parts of the world fit together.
    pub open spec fn wf(&self) -> bool {
        &&& self.itemtype_data@.len() > ITEM_OBFUSCATOR
        &&& self.feral_ids.wf()
        &&& ferals_wf(
            self.itemtype_data@.len(),
            self.feral_ids@,
            self.feral_data@,
            self.feral_by_tile@,
        )
        &&& self.mach_ids.wf()
        &&& machs_wf(self.itemtype_data@.len(), self.mach_ids@, self.mach_data@, self.mach_by_tile@)
        &&& self.drone_ids.wf()
        &&& forall|i: int|
            0 <= i < self.drone_by_x@.len() ==> (#[trigger] self.drone_by_x@[i]).0.0
                < self.drone_ids@.len()
        &&& forall|i: int|
            0 <= i < self.remove_drones@.len() ==> (#[trigger] self.remove_drones@[i]).0
                < self.drone_ids@.len()
        &&& self.bullet_ids.wf()
        &&& forall|i: int|
            0 <= i < self.remove_bullets@.len() ==> (#[trigger] self.remove_bullets@[i]).0
                < self.bullet_ids@.len()
        &&& self.rail@.len() <= 0x1_0000_0000
        &&& self.rail_by_tile@ == rail_index(self.rail@)
        &&& self.player_gun_ammo <= PLAYER_GUN_AMMO_MAX
        &&& tool_ok(self.tool, self.itemtype_data@.len(), self.mach_ids@, self.mach_data@)
    }

    /// An empty world with the given catalog: no rail, no entity, the clock
    /// at zero, the player in gun mode without ammunition. The registries
    /// start with room for 512 drones, 128 projectiles, 64 piles and 64
    /// machines.
    pub fn new(world_size: Tile, itemtype_data: Vec<ItemType>) -> (r: Self)
        requires
            itemtype_data@.len() > ITEM_OBFUSCATOR,
        ensures
            r.wf(),
            r.world_size == world_size,
            r.itemtype_data@ == itemtype_data@,
            r.time_us == 0,
            r.rail@.len() == 0,
            r.drone_ids@ == Seq::new(512, |i: int| false),
            r.bullet_ids@ == Seq::new(128, |i: int| false),
            r.feral_ids@ == Seq::new(64, |i: int| false),
            r.mach_ids@ == Seq::new(64, |i: int| false),
            r.feral_data@.len() == 0,
            r.mach_data@.len() == 0,
            r.feral_by_tile@ == Map::<(u8, u8), FeralItemId>::empty(),
            r.mach_by_tile@ == Map::<(u8, u8), MachineId>::empty(),
            r.drone_by_x@.len() == 0,
            r.remove_drones@.len() == 0,
            r.remove_bullets@.len() == 0,
            r.tool == ToolMode::GunPod,
            r.player_gun_ammo == 0,
            r.player_gun_consecutive == 0,
            r.player_facing == 0,
            r.hop_count == 0,
            r.rail_by_tile@ == Map::<(u8, u8), u32>::empty(),
    {
        let mut drone_ids: IdReg<DroneId> = IdReg::default();
        drone_ids.resize(512);
        let mut bullet_ids: IdReg<BulletId> = IdReg::default();
        bullet_ids.resize(128);
        let mut feral_ids: IdReg<FeralItemId> = IdReg::default();
        feral_ids.resize(32);
        let mut mach_ids: IdReg<MachineId> = IdReg::default();
        mach_ids.resize(32);
        proof {
            assert(drone_ids@ =~= Seq::new(512, |i: int| false));
            assert(bullet_ids@ =~= Seq::new(128, |i: int| false));
            assert(feral_ids@ =~= Seq::new(64, |i: int| false));
            assert(mach_ids@ =~= Seq::new(64, |i: int| false));
        }
        GameMain {
            time_us: 0,
            world_size,
            player_facing: 0,
            player_gun_consecutive: 0,
            player_gun_ammo: 0,
            hop_count: 0,
            rail: Vec::new(),
            rail_by_tile: BTreeMap::new(),
            drone_ids,
            drone_by_x: Vec::new(),
            bullet_ids,
            remove_drones: Vec::new(),
            remove_bullets: Vec::new(),
            itemtype_data,
            feral_ids,
            feral_data: Vec::new(),
            feral_by_tile: BTreeMap::new(),
            mach_ids,
            mach_data: Vec::new(),
            mach_by_tile: BTreeMap::new(),
            tool: ToolMode::GunPod,
        }
    }

    /// What lies on the tile: a pile first, else a machine.
    pub open spec fn thing_on(&self, tile: Tile) -> TileThing {
        if self.feral_by_tile@.contains_key(tile_key_of(tile)) {
            TileThing::Feral(self.feral_by_tile@[tile_key_of(tile)])
        } else if self.mach_by_tile@.contains_key(tile_key_of(tile)) {
            TileThing::Machine(self.mach_by_tile@[tile_key_of(tile)])
        } else {
            TileThing::Nothing
        }
    }

    /// What lies on the tile: a pile first, else a machine.
    pub fn thing_at(&self, tile: Tile) -> (r: TileThing)
        ensures
            r == self.thing_on(tile),
    {
        let key: (u8, u8) = tile_key(tile);
        if let Some(feral) = tile_lookup(&self.feral_by_tile, key) {
            return TileThing::Feral(feral);
        } else if let Some(mach) = tile_lookup(&self.mach_by_tile, key) {
            return TileThing::Machine(mach);
        }
        TileThing::Nothing
    }

    /// The tool after the player switched it: from building with empty hands
    /// to the gun, from the gun to building. Hands that carry something keep
    /// the tool.
    pub open spec fn next_tool(tool: ToolMode) -> ToolMode {
        match tool {
            ToolMode::Construct(Drag::Nothing) => ToolMode::GunPod,
            ToolMode::Construct(_) => tool,
            ToolMode::GunPod => ToolMode::Construct(Drag::Nothing),
        }
    }

    /// Switches the tool.
    pub fn cycle_tool(&mut self)
        requires
            old(self).wf(),
        ensures
            final(self).wf(),
            *final(self) == (GameMain { tool: Self::next_tool(old(self).tool), ..*old(self) }),
    {
        match self.tool {
            ToolMode::Construct(drag) => {
                if let Drag::Nothing = drag {
                    self.tool = ToolMode::GunPod;
                }
            },
            ToolMode::GunPod => {
                self.tool = ToolMode::Construct(Drag::Nothing);
            },
        }
    }

    /// Picks up what lies on the tile, with empty hands: the front slot of a
    /// pile, which is removed from the world if that was its last, or else the
    /// machine that stands there. Returns whether anything was picked up.
    pub fn pick_up(&mut self, tile: Tile) -> (r: bool)
        requires
            old(self).wf(),
            old(self).tool == ToolMode::Construct(Drag::Nothing),
        ensures
            final(self).wf(),
            *final(self) == (GameMain {
                tool: final(self).tool,
                feral_ids: final(self).feral_ids,
                feral_data: final(self).feral_data,
                feral_by_tile: final(self).feral_by_tile,
                mach_data: final(self).mach_data,
                mach_by_tile: final(self).mach_by_tile,
                ..*old(self)
            }),
            match old(self).thing_on(tile) {
                TileThing::Nothing => !r && *final(self) == *old(self),
                TileThing::Feral(feral) => {
                    let slots = old(self).feral_data@[feral.0 as int].slots@;
                    &&& r
                    &&& final(self).tool == ToolMode::Construct(Drag::Item(slots[0]->0))
                    &&& final(self).feral_data@.len() == old(self).feral_data@.len()
                    &&& forall|i: int|
                        0 <= i < old(self).feral_data@.len() && i != feral.0 ==> final(self).feral_data@[i] == old(self).feral_data@[i]
                    &&& final(self).feral_data@[feral.0 as int].pos == old(self).feral_data@[feral.0 as int].pos
                    &&& final(self).feral_data@[feral.0 as int].slots@ == front_removed(slots)
                    &&& final(self).feral_ids@ == if all_empty(front_removed(slots)) {
                        old(self).feral_ids@.update(feral.0 as int, false)
                    } else {
                        old(self).feral_ids@
                    }
                    &&& final(self).feral_by_tile@ == if all_empty(front_removed(slots)) {
                        old(self).feral_by_tile@.remove(tile_key_of(tile))
                    } else {
                        old(self).feral_by_tile@
                    }
                    &&& final(self).mach_data@ == old(self).mach_data@
                    &&& final(self).mach_by_tile@ == old(self).mach_by_tile@
                },
                TileThing::Machine(mach) => {
                    &&& r
                    &&& final(self).tool == ToolMode::Construct(Drag::Machine(mach))
                    &&& final(self).mach_data@ == old(self).mach_data@.update(
                        mach.0 as int,
                        Machine { pos: None, ..old(self).mach_data@[mach.0 as int] },
                    )
                    &&& final(self).mach_by_tile@ == old(self).mach_by_tile@.remove(
                        tile_key_of(tile),
                    )
                    &&& final(self).feral_ids@ == old(self).feral_ids@
                    &&& final(self).feral_data@ == old(self).feral_data@
                    &&& final(self).feral_by_tile@ == old(self).feral_by_tile@
                },
            },
    {
        match self.thing_at(tile) {
            TileThing::Nothing => false,
            TileThing::Feral(feral) => {
                proof {
                    assert(active_at(self.feral_ids@, feral.0 as int));
                    lemma_front_taken_sound(
                        self.itemtype_data@.len(),
                        self.feral_data@[feral.0 as int].slots@,
                    );
                }
                let mut d: FeralItem = self.feral_data[feral.0];
                let slot: ItemSlot = take_front_slot(&mut d.slots);
                self.feral_data[feral.0] = d;
                proof {
                    let n_types = self.itemtype_data@.len();
                    assert forall|i: int| #[trigger] active_at(self.feral_ids@, i) implies {
                        &&& i < self.feral_data@.len()
                        &&& pile_sound(n_types, self.feral_data@[i].slots@)
                        &&& i != feral.0 ==> self.feral_data@[i].slots@[0] is Some
                        &&& self.feral_by_tile@.contains_key(tile_key_of(self.feral_data@[i].pos))
                        &&& self.feral_by_tile@[tile_key_of(self.feral_data@[i].pos)]
                            == FeralItemId(i as usize)
                    } by {
                        if i != feral.0 {
                            assert(self.feral_data@[i] == old(self).feral_data@[i]);
                        }
                    }
                    assert forall|k: (u8, u8)| #[trigger]
                        self.feral_by_tile@.contains_key(k) implies {
                        &&& active_at(self.feral_ids@, self.feral_by_tile@[k].0 as int)
                        &&& self.feral_by_tile@[k].0 < self.feral_data@.len()
                        &&& tile_key_of(self.feral_data@[self.feral_by_tile@[k].0 as int].pos)
                            == k
                    } by {
                        let v = self.feral_by_tile@[k].0 as int;
                        if v != feral.0 {
                            assert(self.feral_data@[v] == old(self).feral_data@[v]);
                        }
                    }
                    assert forall|i: int|
                        0 <= i < self.feral_data@.len() && !active_at(
                            self.feral_ids@,
                            i,
                        ) implies all_empty((#[trigger] self.feral_data@[i]).slots@) by {
                        assert(self.feral_data@[i] == old(self).feral_data@[i]);
                    }
                    assert(ferals_wf_but(
                        n_types,
                        self.feral_ids@,
                        self.feral_data@,
                        self.feral_by_tile@,
                        feral.0 as int,
                    ));
                }
                feral_remove_if_empty(
                    &mut self.feral_ids,
                    &mut self.feral_data,
                    &mut self.feral_by_tile,
                    feral,
                );
                self.tool = ToolMode::Construct(Drag::Item(slot));
                true
            },
            TileThing::Machine(mach) => {
                proof {
                    assert(active_at(self.mach_ids@, mach.0 as int));
                }
                let mut m: Machine = self.mach_data[mach.0];
                m.pos = None;
                self.mach_data[mach.0] = m;
                self.tool = ToolMode::Construct(Drag::Machine(mach));
                tile_unfile(&mut self.mach_by_tile, tile_key(tile));
                proof {
                    let n_types = self.itemtype_data@.len();
                    assert forall|i: int| #[trigger] active_at(self.mach_ids@, i) implies {
                        &&& i < self.mach_data@.len()
                        &&& machine_ok(n_types, self.mach_data@[i])
                        &&& self.mach_data@[i].pos is Some ==> {
                            &&& self.mach_by_tile@.contains_key(
                                tile_key_of(self.mach_data@[i].pos->0),
                            )
                            &&& self.mach_by_tile@[tile_key_of(self.mach_data@[i].pos->0)]
                                == MachineId(i as usize)
                        }
                    } by {
                        if i != mach.0 {
                            assert(self.mach_data@[i] == old(self).mach_data@[i]);
                            if self.mach_data@[i].pos is Some {
                                let k = tile_key_of(self.mach_data@[i].pos->0);
                                assert(old(self).mach_by_tile@[k] == MachineId(i as usize));
                            }
                        }
                    }
                    assert forall|k: (u8, u8)| #[trigger]
                        self.mach_by_tile@.contains_key(k) implies {
                        &&& active_at(self.mach_ids@, self.mach_by_tile@[k].0 as int)
                        &&& self.mach_by_tile@[k].0 < self.mach_data@.len()
                        &&& self.mach_data@[self.mach_by_tile@[k].0 as int].pos is Some
                        &&& tile_key_of(self.mach_data@[self.mach_by_tile@[k].0 as int].pos->0)
                            == k
                    } by {
                        assert(old(self).mach_by_tile@.contains_key(k));
                        let v = old(self).mach_by_tile@[k].0 as int;
                        if v == mach.0 {
                            assert(tile_key_of(old(self).mach_data@[v].pos->0) == k);
                        }
                    }
                    assert forall|i: int|
                        0 <= i < self.mach_data@.len() && !active_at(
                            self.mach_ids@,
                            i,
                        ) implies (#[trigger] self.mach_data@[i]).pos is None by {
                        if i != mach.0 {
                            assert(self.mach_data@[i] == old(self).mach_data@[i]);
                        }
                    }
                }
                true
            },
        }
    }

    /// How many rounds a turret with `ammo` rounds takes from `count` bullets.
    pub open spec fn turret_takes(ammo: u32, count: u32) -> u32 {
        if ammo >= TURRET_AMMO_MAX {
            0
        } else if TURRET_AMMO_MAX - ammo < count {
            (TURRET_AMMO_MAX - ammo) as u32
        } else {
            count
        }
    }

    /// What is left in the hands once `taken` items went out of the slot.
    pub open spec fn hands_after(slot: ItemSlot, taken: u32) -> Drag {
        if taken == slot.count {
            Drag::Nothing
        } else {
            Drag::Item(ItemSlot { itemtype: slot.itemtype, count: (slot.count - taken) as u32 })
        }
    }

    /// Puts the carried items down on the tile. On a machine they are loaded
    /// into it if they are bullets and the machine is a turret: the turret
    /// takes what it has room for. Anywhere else they are placed as
    /// `place_item` does. What could not be placed or loaded stays in the
    /// hands. Returns whether the items met a turret or any of them were placed.
    pub fn put_down_item(&mut self, tile: Tile) -> (r: bool)
        requires
            old(self).wf(),
            old(self).tool is Construct,
            old(self).tool->Construct_0 is Item,
            old(self).feral_ids@.len() > 0,
            old(self).feral_ids@.len() * 2 <= usize::MAX - 63,
        ensures
            final(self).wf(),
            *final(self) == (GameMain {
                tool: final(self).tool,
                feral_ids: final(self).feral_ids,
                feral_data: final(self).feral_data,
                feral_by_tile: final(self).feral_by_tile,
                mach_data: final(self).mach_data,
                ..*old(self)
            }),
            match old(self).thing_on(tile) {
                TileThing::Machine(mach) => {
                    let slot = old(self).tool->Construct_0->Item_0;
                    let m = old(self).mach_data@[mach.0 as int];
                    &&& final(self).feral_ids@ == old(self).feral_ids@
                    &&& final(self).feral_data@ == old(self).feral_data@
                    &&& final(self).feral_by_tile@ == old(self).feral_by_tile@
                    &&& r == (slot.itemtype.0 == ITEM_BULLET && m.spec is Turret)
                    &&& !r ==> final(self).tool == old(self).tool && final(self).mach_data@ == old(self).mach_data@
                    &&& r ==> {
                        let taken = Self::turret_takes(m.spec->Turret_ammo, slot.count);
                        &&& final(self).tool == ToolMode::Construct(Self::hands_after(slot, taken))
                        &&& final(self).mach_data@ == old(self).mach_data@.update(
                            mach.0 as int,
                            Machine {
                                spec: MachineSpec::Turret {
                                    ammo: (m.spec->Turret_ammo + taken) as u32,
                                    can_fire_time_us: m.spec->Turret_can_fire_time_us,
                                },
                                ..m
                            },
                        )
                    }
                },
                _ => {
                    let slot = old(self).tool->Construct_0->Item_0;
                    &&& final(self).mach_data@ == old(self).mach_data@
                    &&& exists|placing: Result<FeralItemId, (FeralItemId, ItemSlot, bool)>|
                        {
                            &&& #[trigger] placed(
                                old(self).itemtype_data@,
                                old(self).feral_ids@,
                                old(self).feral_data@,
                                old(self).feral_by_tile@,
                                final(self).feral_ids@,
                                final(self).feral_data@,
                                final(self).feral_by_tile@,
                                tile,
                                slot,
                                placing,
                            )
                            &&& match placing {
                                Ok(_) => r && final(self).tool == ToolMode::Construct(
                                    Drag::Nothing,
                                ),
                                Err((_, left, transfered)) => r == transfered && final(self).tool
                                    == ToolMode::Construct(Drag::Item(left)),
                            }
                        }
                },
            },
    {
        let slot: ItemSlot = match self.tool {
            ToolMode::Construct(Drag::Item(slot)) => slot,
            _ => {
                return false;
            },
        };
        match self.thing_at(tile) {
            TileThing::Machine(mach) => {
                proof {
                    assert(active_at(self.mach_ids@, mach.0 as int));
                }
                if slot.itemtype.0 == ITEM_BULLET {
                    let m: Machine = self.mach_data[mach.0];
                    if let MachineSpec::Turret { ammo, can_fire_time_us } = m.spec {
                        let room: u32 = TURRET_AMMO_MAX.saturating_sub(ammo);
                        let transfer: u32 = if room < slot.count {
                            room
                        } else {
                            slot.count
                        };
                        self.mach_data[mach.0] = Machine {
                            pos: m.pos,
                            dir: m.dir,
                            spec: MachineSpec::Turret { ammo: ammo + transfer, can_fire_time_us },
                        };
                        if slot.count - transfer == 0 {
                            self.tool = ToolMode::Construct(Drag::Nothing);
                        } else {
                            self.tool = ToolMode::Construct(
                                Drag::Item(
                                    ItemSlot {
                                        itemtype: slot.itemtype,
                                        count: slot.count - transfer,
                                    },
                                ),
                            );
                        }
                        proof {
                            self.lemma_machine_changed(old(self), mach.0 as int);
                        }
                        return true;
                    }
                }
                false
            },
            _ => {
                let placing = place_item(
                    &self.itemtype_data,
                    &mut self.feral_ids,
                    &mut self.feral_data,
                    &mut self.feral_by_tile,
                    tile,
                    slot,
                );
                proof {
                    if old(self).feral_by_tile@.contains_key(tile_key_of(tile)) {
                        let feral = old(self).feral_by_tile@[tile_key_of(tile)];
                        lemma_stack_into_left(
                            old(self).feral_data@[feral.0 as int].slots@,
                            self.itemtype_data@[slot.itemtype.0 as int].stackable,
                            slot,
                        );
                    }
                }
                match placing {
                    Ok(_) => {
                        self.tool = ToolMode::Construct(Drag::Nothing);
                        true
                    },
                    Err((_, left, transfered)) => {
                        self.tool = ToolMode::Construct(Drag::Item(left));
                        transfered
                    },
                }
            },
        }
    }

    /// The machines stay consistent where one machine changed but still
    /// stands where it stood, and is sound.
    pub proof fn lemma_machine_changed(&self, before: &Self, changed: int)
        requires
            machs_wf(
                before.itemtype_data@.len(),
                before.mach_ids@,
                before.mach_data@,
                before.mach_by_tile@,
            ),
            self.itemtype_data@ == before.itemtype_data@,
            self.mach_ids@ == before.mach_ids@,
            self.mach_by_tile@ == before.mach_by_tile@,
            0 <= changed < before.mach_data@.len(),
            self.mach_data@.len() == before.mach_data@.len(),
            forall|i: int|
                0 <= i < before.mach_data@.len() && i != changed ==> self.mach_data@[i]
                    == before.mach_data@[i],
            self.mach_data@[changed].pos == before.mach_data@[changed].pos,
            machine_ok(self.itemtype_data@.len(), self.mach_data@[changed]),
        ensures
            machs_wf(self.itemtype_data@.len(), self.mach_ids@, self.mach_data@, self.mach_by_tile@),
    {
        let n_types = self.itemtype_data@.len();
        assert forall|i: int| #[trigger] active_at(self.mach_ids@, i) implies {
            &&& i < self.mach_data@.len()
            &&& machine_ok(n_types, self.mach_data@[i])
            &&& self.mach_data@[i].pos is Some ==> {
                &&& self.mach_by_tile@.contains_key(tile_key_of(self.mach_data@[i].pos->0))
                &&& self.mach_by_tile@[tile_key_of(self.mach_data@[i].pos->0)] == MachineId(
                    i as usize,
                )
            }
        } by {
            assert(active_at(before.mach_ids@, i));
        }
        assert forall|k: (u8, u8)| #[trigger] self.mach_by_tile@.contains_key(k) implies {
            &&& active_at(self.mach_ids@, self.mach_by_tile@[k].0 as int)
            &&& self.mach_by_tile@[k].0 < self.mach_data@.len()
            &&& self.mach_data@[self.mach_by_tile@[k].0 as int].pos is Some
            &&& tile_key_of(self.mach_data@[self.mach_by_tile@[k].0 as int].pos->0) == k
        } by {
            assert(before.mach_by_tile@.contains_key(k));
        }
        assert forall|i: int|
            0 <= i < self.mach_data@.len() && !active_at(self.mach_ids@, i) implies (
        #[trigger] self.mach_data@[i]).pos is None by {
            assert(!active_at(before.mach_ids@, i));
            if i != changed {
                assert(self.mach_data@[i] == before.mach_data@[i]);
            } else {
                assert(before.mach_data@[i].pos is None);
            }
        }
    }

    /// Whether a rail segment lies on the tile.
    pub open spec fn rail_on(&self, tile: Tile) -> bool {
        exists|i: int| 0 <= i < self.rail@.len() && (#[trigger] self.rail@[i]).pos == tile
    }

    /// Puts the carried machine down on the tile, if nothing lies there and
    /// no rail runs over it. Returns whether it was put down.
    pub fn put_down_machine(&mut self, tile: Tile) -> (r: bool)
        requires
            old(self).wf(),
            old(self).tool is Construct,
            old(self).tool->Construct_0 is Machine,
        ensures
            final(self).wf(),
            r == (old(self).thing_on(tile) == TileThing::Nothing && !old(self).rail_on(tile)),
            !r ==> *final(self) == *old(self),
            r ==> {
                let mach = old(self).tool->Construct_0->Machine_0;
                &&& *final(self) == (GameMain {
                    tool: ToolMode::Construct(Drag::Nothing),
                    mach_data: final(self).mach_data,
                    mach_by_tile: final(self).mach_by_tile,
                    ..*old(self)
                })
                &&& final(self).mach_data@ == old(self).mach_data@.update(
                    mach.0 as int,
                    Machine { pos: Some(tile), ..old(self).mach_data@[mach.0 as int] },
                )
                &&& final(self).mach_by_tile@ == old(self).mach_by_tile@.insert(
                    tile_key_of(tile),
                    mach,
                )
            },
    {
        let mach: MachineId = match self.tool {
            ToolMode::Construct(Drag::Machine(mach)) => mach,
            _ => {
                return false;
            },
        };
        if self.thing_at(tile) != TileThing::Nothing {
            return false;
        }
        let n: usize = self.rail.len();
        let mut i: usize = 0;
        while i < n
            invariant
                i <= n,
                n == self.rail@.len(),
                *self == *old(self),
                self.wf(),
                forall|j: int| 0 <= j < i ==> (#[trigger] self.rail@[j]).pos != tile,
            decreases n - i,
        {
            if self.rail[i].pos == tile {
                return false;
            }
            i += 1;
        }
        tile_file(&mut self.mach_by_tile, tile_key(tile), mach);
        let mut m: Machine = self.mach_data[mach.0];
        m.pos = Some(tile);
        self.mach_data[mach.0] = m;
        self.tool = ToolMode::Construct(Drag::Nothing);
        proof {
            let n_types = self.itemtype_data@.len();
            let key = tile_key_of(tile);
            assert forall|i: int| #[trigger] active_at(self.mach_ids@, i) implies {
                &&& i < self.mach_data@.len()
                &&& machine_ok(n_types, self.mach_data@[i])
                &&& self.mach_data@[i].pos is Some ==> {
                    &&& self.mach_by_tile@.contains_key(tile_key_of(self.mach_data@[i].pos->0))
                    &&& self.mach_by_tile@[tile_key_of(self.mach_data@[i].pos->0)]
                        == MachineId(i as usize)
                }
            } by {
                assert(active_at(old(self).mach_ids@, i));
                if i != mach.0 {
                    assert(self.mach_data@[i] == old(self).mach_data@[i]);
                }
            }
            assert forall|k: (u8, u8)| #[trigger] self.mach_by_tile@.contains_key(k) implies {
                &&& active_at(self.mach_ids@, self.mach_by_tile@[k].0 as int)
                &&& self.mach_by_tile@[k].0 < self.mach_data@.len()
                &&& self.mach_data@[self.mach_by_tile@[k].0 as int].pos is Some
                &&& tile_key_of(self.mach_data@[self.mach_by_tile@[k].0 as int].pos->0) == k
            } by {
                if k != key {
                    assert(old(self).mach_by_tile@.contains_key(k));
                    let v = old(self).mach_by_tile@[k].0 as int;
                    assert(old(self).mach_data@[v].pos is Some);
                    assert(v != mach.0);
                }
            }
            assert forall|i: int|
                0 <= i < self.mach_data@.len() && !active_at(self.mach_ids@, i) implies (
            #[trigger] self.mach_data@[i]).pos is None by {
                assert(self.mach_data@[i] == old(self).mach_data@[i]);
            }
        }
        true
    }

    /// The direction after a carried machine was turned: a quarter turn to
    /// the left.
    pub open spec fn turned_left(dir: Dir) -> Dir {
        match dir {
            Dir::Right => Dir::Up,
            Dir::Up => Dir::Left,
            Dir::Left => Dir::Down,
            Dir::Down => Dir::Right,
        }
    }

    /// Turns the carried machine by a quarter turn to the left.
    pub fn rotate_carried(&mut self)
        requires
            old(self).wf(),
        ensures
            final(self).wf(),
            match old(self).tool {
                ToolMode::Construct(Drag::Machine(mach)) => {
                    &&& *final(self) == (GameMain {
                        mach_data: final(self).mach_data,
                        ..*old(self)
                    })
                    &&& final(self).mach_data@ == old(self).mach_data@.update(
                        mach.0 as int,
                        Machine {
                            dir: Self::turned_left(old(self).mach_data@[mach.0 as int].dir),
                            ..old(self).mach_data@[mach.0 as int]
                        },
                    )
                },
                _ => *final(self) == *old(self),
            },
    {
        if let ToolMode::Construct(Drag::Machine(mach)) = self.tool {
            let mut m: Machine = self.mach_data[mach.0];
            m.dir = match m.dir {
                Dir::Right => Dir::Up,
                Dir::Up => Dir::Left,
                Dir::Left => Dir::Down,
                Dir::Down => Dir::Right,
            };
            self.mach_data[mach.0] = m;
            proof {
                self.lemma_machine_changed(old(self), mach.0 as int);
            }
        }
    }

    /// The piles stay consistent, but that pile `changed` may be empty, where
    /// only the slots of that pile changed and are sound.
    pub proof fn lemma_pile_changed(&self, before: &Self, changed: int)
        requires
            ferals_wf(
                before.itemtype_data@.len(),
                before.feral_ids@,
                before.feral_data@,
                before.feral_by_tile@,
            ),
            self.itemtype_data@ == before.itemtype_data@,
            self.feral_ids@ == before.feral_ids@,
            self.feral_by_tile@ == before.feral_by_tile@,
            active_at(before.feral_ids@, changed),
            self.feral_data@.len() == before.feral_data@.len(),
            forall|i: int|
                0 <= i < before.feral_data@.len() && i != changed ==> self.feral_data@[i]
                    == before.feral_data@[i],
            self.feral_data@[changed].pos == before.feral_data@[changed].pos,
            pile_sound(self.itemtype_data@.len(), self.feral_data@[changed].slots@),
        ensures
            ferals_wf_but(
                self.itemtype_data@.len(),
                self.feral_ids@,
                self.feral_data@,
                self.feral_by_tile@,
                changed,
            ),
            self.feral_data@[changed].slots@[0] is Some ==> ferals_wf(
                self.itemtype_data@.len(),
                self.feral_ids@,
                self.feral_data@,
                self.feral_by_tile@,
            ),
    {
        let n_types = self.itemtype_data@.len();
        assert forall|i: int| #[trigger] active_at(self.feral_ids@, i) implies {
            &&& i < self.feral_data@.len()
            &&& pile_sound(n_types, self.feral_data@[i].slots@)
            &&& i != changed ==> self.feral_data@[i].slots@[0] is Some
            &&& self.feral_by_tile@.contains_key(tile_key_of(self.feral_data@[i].pos))
            &&& self.feral_by_tile@[tile_key_of(self.feral_data@[i].pos)] == FeralItemId(
                i as usize,
            )
        } by {
            assert(active_at(before.feral_ids@, i));
            if i != changed {
                assert(self.feral_data@[i] == before.feral_data@[i]);
            }
        }
        assert forall|k: (u8, u8)| #[trigger] self.feral_by_tile@.contains_key(k) implies {
            &&& active_at(self.feral_ids@, self.feral_by_tile@[k].0 as int)
            &&& self.feral_by_tile@[k].0 < self.feral_data@.len()
            &&& tile_key_of(self.feral_data@[self.feral_by_tile@[k].0 as int].pos) == k
        } by {
            assert(before.feral_by_tile@.contains_key(k));
            let v = self.feral_by_tile@[k].0 as int;
            if v != changed {
                assert(self.feral_data@[v] == before.feral_data@[v]);
            }
        }
        assert forall|i: int|
            0 <= i < self.feral_data@.len() && !active_at(self.feral_ids@, i) implies all_empty(
            (#[trigger] self.feral_data@[i]).slots@,
        ) by {
            assert(self.feral_data@[i] == before.feral_data@[i]);
        }
    }

    /// Reloads the gun from the pile on the tile: takes bullets out of it up
    /// to what the gun has room for; a pile left empty is removed from the
    /// world. Returns how many bullets were loaded.
    pub fn reload_gun(&mut self, tile: Tile) -> (r: u32)
        requires
            old(self).wf(),
            old(self).tool == ToolMode::GunPod,
        ensures
            final(self).wf(),
            *final(self) == (GameMain {
                player_gun_ammo: final(self).player_gun_ammo,
                feral_ids: final(self).feral_ids,
                feral_data: final(self).feral_data,
                feral_by_tile: final(self).feral_by_tile,
                ..*old(self)
            }),
            final(self).player_gun_ammo == old(self).player_gun_ammo + r,
            match old(self).thing_on(tile) {
                TileThing::Feral(feral) => {
                    let slots = old(self).feral_data@[feral.0 as int].slots@;
                    let room = (PLAYER_GUN_AMMO_MAX - old(self).player_gun_ammo) as nat;
                    let after = compacted(drained(slots, ItemTypeId(ITEM_BULLET), room));
                    &&& r == room - still_wanted(room, total_of(slots, ItemTypeId(ITEM_BULLET)))
                    &&& final(self).feral_data@.len() == old(self).feral_data@.len()
                    &&& forall|i: int|
                        0 <= i < old(self).feral_data@.len() && i != feral.0 ==> final(self).feral_data@[i] == old(self).feral_data@[i]
                    &&& final(self).feral_data@[feral.0 as int].pos == old(self).feral_data@[feral.0 as int].pos
                    &&& final(self).feral_data@[feral.0 as int].slots@ == after
                    &&& final(self).feral_ids@ == if all_empty(after) {
                        old(self).feral_ids@.update(feral.0 as int, false)
                    } else {
                        old(self).feral_ids@
                    }
                    &&& final(self).feral_by_tile@ == if all_empty(after) {
                        old(self).feral_by_tile@.remove(tile_key_of(tile))
                    } else {
                        old(self).feral_by_tile@
                    }
                },
                _ => r == 0 && *final(self) == *old(self),
            },
    {
        match self.thing_at(tile) {
            TileThing::Feral(feral) => {
                proof {
                    assert(active_at(self.feral_ids@, feral.0 as int));
                    lemma_take_sound(
                        self.itemtype_data@.len(),
                        self.feral_data@[feral.0 as int].slots@,
                        ItemTypeId(ITEM_BULLET),
                        (PLAYER_GUN_AMMO_MAX - self.player_gun_ammo) as nat,
                    );
                }
                let mut d: FeralItem = self.feral_data[feral.0];
                let got_bullets: u32 = take_items(
                    &mut d.slots,
                    ItemTypeId(ITEM_BULLET),
                    PLAYER_GUN_AMMO_MAX - self.player_gun_ammo,
                );
                self.feral_data[feral.0] = d;
                proof {
                    self.lemma_pile_changed(old(self), feral.0 as int);
                }
                feral_remove_if_empty(
                    &mut self.feral_ids,
                    &mut self.feral_data,
                    &mut self.feral_by_tile,
                    feral,
                );
                if got_bullets != 0 {
                    self.player_gun_ammo = self.player_gun_ammo + got_bullets;
                }
                got_bullets
            },
            _ => 0,
        }
    }

    /// Fires the gun, if the player is in gun mode, holds ammunition, and a
    /// projectile handle is free: one round is used up, the count of shots in
    /// a row grows, and the handle of the new projectile is returned.
    pub fn fire_gun(&mut self) -> (r: Option<BulletId>)
        requires
            old(self).wf(),
            old(self).player_gun_consecutive < u32::MAX,
        ensures
            final(self).wf(),
            r is Some <==> old(self).player_gun_ammo != 0 && old(self).tool == ToolMode::GunPod
                && has_free(old(self).bullet_ids@),
            r is None ==> {
                &&& *final(self) == (GameMain { bullet_ids: final(self).bullet_ids, ..*old(self) })
                &&& final(self).bullet_ids@ == old(self).bullet_ids@
            },
            r is Some ==> {
                &&& *final(self) == (GameMain {
                    player_gun_ammo: (old(self).player_gun_ammo - 1) as u32,
                    player_gun_consecutive: (old(self).player_gun_consecutive + 1) as u32,
                    bullet_ids: final(self).bullet_ids,
                    ..*old(self)
                })
                &&& forall|p: int|
                    is_first_free(old(self).bullet_ids@, p) ==> {
                        &&& r == Some(BulletId(p as usize))
                        &&& final(self).bullet_ids@ == old(self).bullet_ids@.update(p, true)
                    }
            },
    {
        if self.player_gun_ammo != 0 && self.tool == ToolMode::GunPod {
            let bullet: Option<BulletId> = self.bullet_ids.create();
            if bullet.is_some() {
                self.player_gun_consecutive = self.player_gun_consecutive + 1;
                self.player_gun_ammo = self.player_gun_ammo - 1;
                proof {
                    assert(IdReg::<BulletId>::handles_obey());
                    assert forall|p: int| is_first_free(old(self).bullet_ids@, p) implies bullet
                        == Some(BulletId(p as usize)) by {
                        assert(bullet == Some(IdReg::<BulletId>::handle_of(p)));
                    }
                    assert(self.bullet_ids@.len() == old(self).bullet_ids@.len()) by {
                        let q = choose|q: int|
                            0 <= q < old(self).bullet_ids@.len() && !old(self).bullet_ids@[q];
                        crate::lgrn::lemma_first_free_exists(old(self).bullet_ids@, q);
                        let f = choose|f: int| is_first_free(old(self).bullet_ids@, f);
                        assert(is_first_free(old(self).bullet_ids@, f));
                    }
                }
            }
            bullet
        } else {
            None
        }
    }

    /// Ends a run of shots: the count of shots in a row starts anew.
    pub fn rest_gun(&mut self)
        ensures
            *final(self) == (GameMain { player_gun_consecutive: 0, ..*old(self) }),
    {
        self.player_gun_consecutive = 0;
    }

    /// The pile on which the player crafts at the tile: no rail runs over the
    /// tile, and a pile lies there.
    pub open spec fn workbench(&self, tile: Tile) -> Option<FeralItemId> {
        if !self.rail_by_tile@.contains_key(tile_key_of(tile)) && self.feral_by_tile@.contains_key(
            tile_key_of(tile),
        ) {
            Some(self.feral_by_tile@[tile_key_of(tile)])
        } else {
            None
        }
    }

    /// The pile on which the player crafts at the tile, if there is one.
    pub fn workbench_at(&self, tile: Tile) -> (r: Option<FeralItemId>)
        ensures
            r == self.workbench(tile),
    {
        if crate::tiles::tile_taken(&self.rail_by_tile, tile_key(tile)) {
            return None;
        }
        tile_lookup(&self.feral_by_tile, tile_key(tile))
    }

    /// Crafts an item recipe on the pile that lies on the tile, with empty
    /// hands. Where the recipe cannot be crafted nothing changes. Returns
    /// whether it was crafted.
    pub fn craft_items(&mut self, tile: Tile, recipe: u32) -> (r: bool)
        requires
            old(self).wf(),
            old(self).tool == ToolMode::Construct(Drag::Nothing),
            recipe == 0 || recipe == 1 || recipe == 2,
        ensures
            final(self).wf(),
            r == (old(self).workbench(tile) is Some && craft_fits(
                old(self).itemtype_data@,
                old(self).feral_data@[old(self).workbench(tile)->Some_0.0 as int].slots@,
                item_recipe_req(recipe),
                item_recipe_out(recipe),
            )),
            !r ==> *final(self) == *old(self),
            r ==> {
                let feral = old(self).workbench(tile)->Some_0.0 as int;
                &&& *final(self) == (GameMain {
                    feral_data: final(self).feral_data,
                    ..*old(self)
                })
                &&& final(self).feral_data@.len() == old(self).feral_data@.len()
                &&& forall|i: int|
                    0 <= i < old(self).feral_data@.len() && i != feral ==> final(self).feral_data@[i] == old(self).feral_data@[i]
                &&& final(self).feral_data@[feral].pos == old(self).feral_data@[feral].pos
                &&& final(self).feral_data@[feral].slots@ == crafted(
                    old(self).itemtype_data@,
                    old(self).feral_data@[feral].slots@,
                    item_recipe_req(recipe),
                    item_recipe_out(recipe),
                )
            },
    {
        let feral: FeralItemId = match self.workbench_at(tile) {
            Some(f) => f,
            None => {
                return false;
            },
        };
        proof {
            assert(active_at(self.feral_ids@, feral.0 as int));
            assert(crate::items::outs_valid(self.itemtype_data@.len(), item_recipe_out(recipe)));
            lemma_crafted_sound(
                self.itemtype_data@,
                self.feral_data@[feral.0 as int].slots@,
                item_recipe_req(recipe),
                item_recipe_out(recipe),
            );
        }
        let d: FeralItem = self.feral_data[feral.0];
        match craft_item_recipe(&self.itemtype_data, &d.slots, recipe) {
            None => false,
            Some(made) => {
                self.feral_data[feral.0] = FeralItem { pos: d.pos, slots: made };
                proof {
                    self.lemma_pile_changed(old(self), feral.0 as int);
                }
                true
            },
        }
    }

    /// The machine that a machine recipe builds at the time `now`: 5 a
    /// turret without ammunition, 6 a conveyor, 7 a conveyor with a filter;
    /// each may act at once.
    pub open spec fn built_by(recipe: u32, now: u64) -> MachineSpec {
        if recipe == 5 {
            MachineSpec::Turret { ammo: 0, can_fire_time_us: now }
        } else {
            MachineSpec::Conveyor {
                item: ItemSlot { itemtype: ItemTypeId(usize::MAX), count: 0 },
                filter: recipe == 7,
                can_move_time_us: now,
                can_dump_time_us: now,
            }
        }
    }

    /// Crafts a machine recipe from the pile that lies on the tile, with
    /// empty hands: the pile gives what the recipe takes and is removed from
    /// the world if nothing is left of it, and the new machine is in the
    /// player's hands. Where the pile does not hold what the recipe takes
    /// nothing changes. Returns the handle of the new machine.
    pub fn craft_machine(&mut self, tile: Tile, recipe: u32) -> (r: Option<MachineId>)
        requires
            old(self).wf(),
            old(self).tool == ToolMode::Construct(Drag::Nothing),
            is_machine_recipe(recipe),
            old(self).mach_ids@.len() > 0,
            old(self).mach_ids@.len() * 2 <= usize::MAX - 63,
        ensures
            final(self).wf(),
            r is Some <==> old(self).workbench(tile) is Some && req_met(
                old(self).feral_data@[old(self).workbench(tile)->Some_0.0 as int].slots@,
                machine_recipe_req(recipe),
            ),
            r is None ==> *final(self) == *old(self),
            r is Some ==> {
                let feral = old(self).workbench(tile)->Some_0.0 as int;
                let after = craft_draft(
                    old(self).feral_data@[feral].slots@,
                    machine_recipe_req(recipe),
                );
                let mach = r->Some_0.0 as int;
                &&& *final(self) == (GameMain {
                    tool: ToolMode::Construct(Drag::Machine(r->Some_0)),
                    feral_ids: final(self).feral_ids,
                    feral_data: final(self).feral_data,
                    feral_by_tile: final(self).feral_by_tile,
                    mach_ids: final(self).mach_ids,
                    mach_data: final(self).mach_data,
                    ..*old(self)
                })
                &&& final(self).feral_data@.len() == old(self).feral_data@.len()
                &&& forall|i: int|
                    0 <= i < old(self).feral_data@.len() && i != feral ==> final(self).feral_data@[i] == old(self).feral_data@[i]
                &&& final(self).feral_data@[feral].pos == old(self).feral_data@[feral].pos
                &&& final(self).feral_data@[feral].slots@ == after
                &&& final(self).feral_ids@ == if all_empty(after) {
                    old(self).feral_ids@.update(feral, false)
                } else {
                    old(self).feral_ids@
                }
                &&& final(self).feral_by_tile@ == if all_empty(after) {
                    old(self).feral_by_tile@.remove(tile_key_of(tile))
                } else {
                    old(self).feral_by_tile@
                }
                &&& is_next_slot(old(self).mach_ids@, mach)
                &&& final(self).mach_ids@ == with_next_slot(old(self).mach_ids@, mach)
                &&& final(self).mach_data@.len() == final(self).mach_ids@.len()
                &&& forall|i: int|
                    0 <= i < final(self).mach_data@.len() && i != mach ==> final(self).mach_data@[i] == if i < old(self).mach_data@.len() {
                        old(self).mach_data@[i]
                    } else {
                        Machine { pos: None, dir: Dir::Right, spec: MachineSpec::Blank }
                    }
                &&& final(self).mach_data@[mach].spec == Self::built_by(recipe, old(self).time_us)
                &&& final(self).mach_data@[mach].pos is None
            },
    {
        let feral: FeralItemId = match self.workbench_at(tile) {
            Some(f) => f,
            None => {
                return None;
            },
        };
        proof {
            assert(active_at(self.feral_ids@, feral.0 as int));
            assert(crate::items::outs_valid(
                self.itemtype_data@.len(),
                Seq::<ItemSlot>::empty(),
            ));
            lemma_crafted_sound(
                self.itemtype_data@,
                self.feral_data@[feral.0 as int].slots@,
                machine_recipe_req(recipe),
                Seq::<ItemSlot>::empty(),
            );
        }
        let d: FeralItem = self.feral_data[feral.0];
        let made: Burger = match craft_machine_recipe(&self.itemtype_data, &d.slots, recipe) {
            None => {
                return None;
            },
            Some(made) => made,
        };
        self.feral_data[feral.0] = FeralItem { pos: d.pos, slots: made };
        proof {
            self.lemma_pile_changed(old(self), feral.0 as int);
        }
        feral_remove_if_empty(
            &mut self.feral_ids,
            &mut self.feral_data,
            &mut self.feral_by_tile,
            feral,
        );
        let mach: MachineId = self.mach_ids.create_resize();
        proof {
            assert(IdReg::<MachineId>::handles_obey());
        }
        let ghost data0 = self.mach_data@;
        self.mach_data.resize(self.mach_ids.capacity(), Machine::default());
        let mut m: Machine = self.mach_data[mach.0];
        proof {
            if mach.0 < data0.len() {
                assert(!active_at(old(self).mach_ids@, mach.0 as int));
                assert(data0[mach.0 as int].pos is None);
            }
        }
        m.spec = if recipe == 5 {
            MachineSpec::Turret { ammo: 0, can_fire_time_us: self.time_us }
        } else {
            MachineSpec::Conveyor {
                item: ItemSlot::default(),
                filter: recipe == 7,
                can_move_time_us: self.time_us,
                can_dump_time_us: self.time_us,
            }
        };
        self.mach_data[mach.0] = m;
        self.tool = ToolMode::Construct(Drag::Machine(mach));
        proof {
            let n_types = self.itemtype_data@.len();
            assert forall|i: int| #[trigger] active_at(self.mach_ids@, i) implies {
                &&& i < self.mach_data@.len()
                &&& machine_ok(n_types, self.mach_data@[i])
                &&& self.mach_data@[i].pos is Some ==> {
                    &&& self.mach_by_tile@.contains_key(tile_key_of(self.mach_data@[i].pos->0))
                    &&& self.mach_by_tile@[tile_key_of(self.mach_data@[i].pos->0)]
                        == MachineId(i as usize)
                }
            } by {
                if i != mach.0 {
                    assert(active_at(old(self).mach_ids@, i));
                    assert(self.mach_data@[i] == data0[i]);
                }
            }
            assert forall|k: (u8, u8)| #[trigger] self.mach_by_tile@.contains_key(k) implies {
                &&& active_at(self.mach_ids@, self.mach_by_tile@[k].0 as int)
                &&& self.mach_by_tile@[k].0 < self.mach_data@.len()
                &&& self.mach_data@[self.mach_by_tile@[k].0 as int].pos is Some
                &&& tile_key_of(self.mach_data@[self.mach_by_tile@[k].0 as int].pos->0) == k
            } by {
                let v = self.mach_by_tile@[k].0 as int;
                assert(active_at(old(self).mach_ids@, v));
                assert(self.mach_data@[v] == data0[v]);
            }
            assert forall|i: int|
                0 <= i < self.mach_data@.len() && !active_at(self.mach_ids@, i) implies (
            #[trigger] self.mach_data@[i]).pos is None by {
                if i < data0.len() {
                    assert(!active_at(old(self).mach_ids@, i));
                    assert(self.mach_data@[i] == data0[i]);
                }
            }
        }
        Some(mach)
    }

    /// Uses up an obfuscator charge from the pile on the tile to reroute the
    /// rail path around the tile, as `world_obfuscate` does, with empty
    /// hands. Where the pile holds no charge or the path was not rerouted
    /// nothing changes. Returns whether the path was rerouted.
    pub fn craft_obfuscation<F: Fn(u32, (usize, usize), (usize, usize), Dir) -> Dir>(
        &mut self,
        tile: Tile,
        pick: &F,
    ) -> (r: bool)
        requires
            old(self).wf(),
            old(self).tool == ToolMode::Construct(Drag::Nothing),
            old(self).rail@.len() + 26 <= 0x1_0000_0000,
            forall|steps: u32, pos: (usize, usize), goal: (usize, usize), dir: Dir|
                call_requires(pick, (steps, pos, goal, dir)),
        ensures
            final(self).wf(),
            (old(self).workbench(tile) is None || !req_met(
                old(self).feral_data@[old(self).workbench(tile)->Some_0.0 as int].slots@,
                item_recipe_req(69),
            )) ==> !r,
            old(self).workbench(tile) is Some && req_met(
                old(self).feral_data@[old(self).workbench(tile)->Some_0.0 as int].slots@,
                item_recipe_req(69),
            ) ==> rerouting(
                pick,
                tile,
                old(self).rail@,
                old(self).world_size,
                final(self).rail@,
                r,
            ),
            !r ==> {
                &&& *final(self) == (GameMain { rail: final(self).rail, ..*old(self) })
                &&& final(self).rail@ == old(self).rail@
            },
            r ==> {
                let feral = old(self).workbench(tile)->Some_0.0 as int;
                let after = craft_draft(old(self).feral_data@[feral].slots@, item_recipe_req(69));
                &&& old(self).workbench(tile) is Some
                &&& req_met(old(self).feral_data@[feral].slots@, item_recipe_req(69))
                &&& is_reroute(old(self).rail@, final(self).rail@, tile)
                &&& *final(self) == (GameMain {
                    rail: final(self).rail,
                    rail_by_tile: final(self).rail_by_tile,
                    feral_ids: final(self).feral_ids,
                    feral_data: final(self).feral_data,
                    feral_by_tile: final(self).feral_by_tile,
                    ..*old(self)
                })
                &&& final(self).feral_data@.len() == old(self).feral_data@.len()
                &&& forall|i: int|
                    0 <= i < old(self).feral_data@.len() && i != feral ==> final(self).feral_data@[i] == old(self).feral_data@[i]
                &&& final(self).feral_data@[feral].pos == old(self).feral_data@[feral].pos
                &&& final(self).feral_data@[feral].slots@ == after
                &&& final(self).feral_ids@ == if all_empty(after) {
                    old(self).feral_ids@.update(feral, false)
                } else {
                    old(self).feral_ids@
                }
                &&& final(self).feral_by_tile@ == if all_empty(after) {
                    old(self).feral_by_tile@.remove(tile_key_of(tile))
                } else {
                    old(self).feral_by_tile@
                }
            },
    {
        let feral: FeralItemId = match self.workbench_at(tile) {
            Some(f) => f,
            None => {
                return false;
            },
        };
        proof {
            assert(active_at(self.feral_ids@, feral.0 as int));
            assert(item_recipe_out(69) =~= Seq::<ItemSlot>::empty());
            assert(crate::items::outs_valid(self.itemtype_data@.len(), item_recipe_out(69)));
            lemma_crafted_sound(
                self.itemtype_data@,
                self.feral_data@[feral.0 as int].slots@,
                item_recipe_req(69),
                item_recipe_out(69),
            );
        }
        let d: FeralItem = self.feral_data[feral.0];
        let made: Burger = match craft_item_recipe(&self.itemtype_data, &d.slots, 69) {
            None => {
                return false;
            },
            Some(made) => made,
        };
        if !world_obfuscate(tile, &mut self.rail, self.world_size, pick) {
            proof {
                assert(self.rail@ =~= old(self).rail@);
            }
            return false;
        }
        self.feral_data[feral.0] = FeralItem { pos: d.pos, slots: made };
        proof {
            self.lemma_pile_changed(old(self), feral.0 as int);
        }
        feral_remove_if_empty(
            &mut self.feral_ids,
            &mut self.feral_data,
            &mut self.feral_by_tile,
            feral,
        );
        regen_rail_by_tile(&self.rail, &mut self.rail_by_tile);
        true
    }

    /// Starts a step: carries out the removals of drones and projectiles
    /// that the last step put down.
    pub fn begin_step(&mut self)
        requires
            old(self).wf(),
        ensures
            final(self).wf(),
            *final(self) == (GameMain {
                drone_ids: final(self).drone_ids,
                bullet_ids: final(self).bullet_ids,
                remove_drones: final(self).remove_drones,
                remove_bullets: final(self).remove_bullets,
                ..*old(self)
            }),
            final(self).remove_drones@.len() == 0,
            final(self).remove_bullets@.len() == 0,
            final(self).drone_ids@.len() == old(self).drone_ids@.len(),
            final(self).bullet_ids@.len() == old(self).bullet_ids@.len(),
            forall|i: int|
                0 <= i < old(self).drone_ids@.len() ==> final(self).drone_ids@[i] == (old(self).drone_ids@[i] && !is_pending(old(self).remove_drones@, i)),
            forall|i: int|
                0 <= i < old(self).bullet_ids@.len() ==> final(self).bullet_ids@[i] == (old(self).bullet_ids@[i] && !is_pending(old(self).remove_bullets@, i)),
    {
        proof {
            assert(IdReg::<DroneId>::handles_obey());
            assert(IdReg::<BulletId>::handles_obey());
            assert forall|k: int| 0 <= k < self.remove_drones@.len() implies IdReg::<
                DroneId,
            >::index_of(#[trigger] self.remove_drones@[k]) < self.drone_ids@.len() by {
                assert(IdReg::<DroneId>::index_of(self.remove_drones@[k])
                    == self.remove_drones@[k].0);
            }
            assert forall|k: int| 0 <= k < self.remove_bullets@.len() implies IdReg::<
                BulletId,
            >::index_of(#[trigger] self.remove_bullets@[k]) < self.bullet_ids@.len() by {
                assert(IdReg::<BulletId>::index_of(self.remove_bullets@[k])
                    == self.remove_bullets@[k].0);
            }
        }
        apply_removals(&mut self.drone_ids, &mut self.remove_drones);
        apply_removals(&mut self.bullet_ids, &mut self.remove_bullets);
    }

    /// Brings the index of the drones up to date once they have moved; `xs`
    /// holds the keys of their x positions by drone. See `rebuild_index`.
    pub fn refresh_drones(&mut self, xs: &Vec<i64>)
        requires
            old(self).wf(),
            forall|d: int| active_at(old(self).drone_ids@, d) ==> d < xs@.len(),
        ensures
            final(self).wf(),
            *final(self) == (GameMain { drone_by_x: final(self).drone_by_x, ..*old(self) }),
            sorted_by_x(final(self).drone_by_x@),
            entries_current(final(self).drone_by_x@, old(self).drone_ids@, xs@),
            forall|id: DroneId|
                entries_of(final(self).drone_by_x@, id) == if active_at(
                    old(self).drone_ids@,
                    id.0 as int,
                ) {
                    entries_of(old(self).drone_by_x@, id)
                } else {
                    0
                },
    {
        rebuild_index(&mut self.drone_by_x, &self.drone_ids, xs);
    }

    /// Whether the registry of piles can double its capacity twice.
    pub fn piles_have_room(&self) -> (r: bool)
        requires
            self.feral_ids.wf(),
        ensures
            r == crate::machine::piles_can_grow(self.feral_ids@),
    {
        let cap: usize = self.feral_ids.capacity();
        cap > 0 && cap <= (usize::MAX - 63) / 4
    }

    /// What the machine with the handle `i` makes of the scene `s0` in this
    /// world: see `machine_acted`.
    pub open spec fn acted<F: Fn(Tile, Dir) -> (i64, i64, i64, i64)>(
        &self,
        turret_box: &F,
        ys: Seq<i64>,
        i: int,
        s0: Scene,
        s1: Scene,
    ) -> bool {
        machine_acted(
            turret_box,
            self.itemtype_data@,
            self.world_size,
            self.time_us,
            self.drone_by_x@,
            ys,
            self.mach_ids@,
            self.mach_by_tile@,
            i,
            s0,
            s1,
        )
    }

    /// The part of this world that the machines change when they act, with
    /// the shots fired so far.
    pub open spec fn scene(&self, shots: Seq<(MachineId, BulletId)>) -> Scene {
        Scene {
            bullets: self.bullet_ids@,
            machs: self.mach_data@,
            piles: self.feral_ids@,
            pile_data: self.feral_data@,
            pile_by_tile: self.feral_by_tile@,
            shots,
        }
    }

    /// Lets every machine that stands on a tile act once, in the order of
    /// the handles. A turret shoots as `turret_step` says, at a drone in the
    /// box that `turret_box` gives for its tile and direction; `ys` holds the
    /// keys of the y positions by drone. A conveyor that is due to take does
    /// as `conveyor_take` says; any other conveyor does as
    /// `conveyor_dump_random` says, or nothing where the registry of piles
    /// has no room to grow. Returns the shots fired: each turret that shot,
    /// with the handle of its projectile. What the world is afterwards is
    /// what the machines made of it one after the other, each as
    /// `machine_acted` says.
    pub fn step_machines<F: Fn(Tile, Dir) -> (i64, i64, i64, i64)>(
        &mut self,
        ys: &Vec<i64>,
        turret_box: &F,
    ) -> (shots: Vec<(MachineId, BulletId)>)
        requires
            old(self).wf(),
            old(self).time_us <= TIME_MAX,
            sorted_by_x(old(self).drone_by_x@),
            forall|i: int|
                0 <= i < old(self).drone_by_x@.len() ==> (#[trigger] old(self).drone_by_x@[i]).0.0
                    < ys@.len(),
            forall|tile: Tile, dir: Dir| call_requires(turret_box, (tile, dir)),
        ensures
            final(self).wf(),
            exists|scenes: Seq<Scene>|
                {
                    &&& #[trigger] machines_acted(
                        turret_box,
                        old(self).itemtype_data@,
                        old(self).world_size,
                        old(self).time_us,
                        old(self).drone_by_x@,
                        ys@,
                        old(self).mach_ids@,
                        old(self).mach_by_tile@,
                        scenes,
                    )
                    &&& scenes[0] == old(self).scene(Seq::empty())
                    &&& scenes.last() == final(self).scene(shots@)
                },
            *final(self) == (GameMain {
                bullet_ids: final(self).bullet_ids,
                mach_data: final(self).mach_data,
                feral_ids: final(self).feral_ids,
                feral_data: final(self).feral_data,
                feral_by_tile: final(self).feral_by_tile,
                ..*old(self)
            }),
            final(self).mach_data@.len() == old(self).mach_data@.len(),
            final(self).bullet_ids@.len() == old(self).bullet_ids@.len(),
            forall|i: int|
                0 <= i < old(self).mach_data@.len() ==> {
                    &&& (#[trigger] final(self).mach_data@[i]).pos == old(self).mach_data@[i].pos
                    &&& final(self).mach_data@[i].dir == old(self).mach_data@[i].dir
                    &&& old(self).mach_data@[i].pos is None ==> final(self).mach_data@[i] == old(self).mach_data@[i]
                },
            forall|i: int|
                0 <= i < old(self).bullet_ids@.len() && old(self).bullet_ids@[i] ==> final(self).bullet_ids@[i],
            forall|k: int|
                0 <= k < shots@.len() ==> {
                    &&& active_at(old(self).mach_ids@, (#[trigger] shots@[k]).0.0 as int)
                    &&& old(self).mach_data@[shots@[k].0.0 as int].spec is Turret
                    &&& active_at(final(self).bullet_ids@, shots@[k].1.0 as int)
                    &&& !old(self).bullet_ids@[shots@[k].1.0 as int]
                },
    {
        let mut shots: Vec<(MachineId, BulletId)> = Vec::new();
        let now: u64 = self.time_us;
        let cap: usize = self.mach_ids.capacity();
        let mut i: usize = 0;
        let ghost mut scenes: Seq<Scene> = seq![self.scene(Seq::empty())];
        while i < cap
            invariant
                i <= cap,
                cap == self.mach_ids@.len(),
                scenes.len() == i + 1,
                scenes[0] == old(self).scene(Seq::empty()),
                scenes[i as int] == self.scene(shots@),
                forall|j: int|
                    0 <= j < i ==> machine_acted(
                        turret_box,
                        old(self).itemtype_data@,
                        old(self).world_size,
                        old(self).time_us,
                        old(self).drone_by_x@,
                        ys@,
                        old(self).mach_ids@,
                        old(self).mach_by_tile@,
                        j,
                        #[trigger] scenes[j],
                        scenes[j + 1],
                    ),
                now == self.time_us,
                now <= TIME_MAX,
                old(self).wf(),
                self.wf(),
                *self == (GameMain {
                    bullet_ids: self.bullet_ids,
                    mach_data: self.mach_data,
                    feral_ids: self.feral_ids,
                    feral_data: self.feral_data,
                    feral_by_tile: self.feral_by_tile,
                    ..*old(self)
                }),
                sorted_by_x(self.drone_by_x@),
                forall|j: int|
                    0 <= j < self.drone_by_x@.len() ==> (#[trigger] self.drone_by_x@[j]).0.0
                        < ys@.len(),
                forall|tile: Tile, dir: Dir| call_requires(turret_box, (tile, dir)),
                self.mach_data@.len() == old(self).mach_data@.len(),
                self.bullet_ids@.len() == old(self).bullet_ids@.len(),
                forall|j: int|
                    0 <= j < old(self).mach_data@.len() ==> {
                        &&& (#[trigger] self.mach_data@[j]).pos == old(self).mach_data@[j].pos
                        &&& self.mach_data@[j].dir == old(self).mach_data@[j].dir
                        &&& old(self).mach_data@[j].pos is None ==> self.mach_data@[j] == old(self).mach_data@[j]
                        &&& j >= i && old(self).mach_data@[j].spec is Turret
                            ==> self.mach_data@[j].spec is Turret
                        &&& self.mach_data@[j].spec is Turret ==> old(self).mach_data@[j].spec
                            is Turret
                    },
                forall|j: int|
                    0 <= j < old(self).bullet_ids@.len() && old(self).bullet_ids@[j]
                        ==> self.bullet_ids@[j],
                forall|k: int|
                    0 <= k < shots@.len() ==> {
                        &&& active_at(old(self).mach_ids@, (#[trigger] shots@[k]).0.0 as int)
                        &&& old(self).mach_data@[shots@[k].0.0 as int].spec is Turret
                        &&& active_at(self.bullet_ids@, shots@[k].1.0 as int)
                        &&& !old(self).bullet_ids@[shots@[k].1.0 as int]
                    },
            decreases cap - i,
        {
            let mach: MachineId = MachineId(i);
            let ghost s0 = self.scene(shots@);
            proof {
                assert(IdReg::<MachineId>::handles_obey());
                assert(IdReg::<MachineId>::index_of(mach) == i);
            }
            if self.mach_ids.is_active(mach) {
                proof {
                    assert(active_at(self.mach_ids@, i as int));
                }
                let m: Machine = self.mach_data[i];
                let ghost machs0 = self.mach_data@;
                let ghost n_types = self.itemtype_data@.len();
                if let Some(pos) = m.pos {
                    match m.spec {
                        MachineSpec::Turret { ammo, can_fire_time_us } => {
                            let b: (i64, i64, i64, i64) = turret_box(pos, m.dir);
                            let mut t: Machine = m;
                            let ghost bullets0 = self.bullet_ids@;
                            let shot: Option<BulletId> = turret_step(
                                &mut t,
                                now,
                                &mut self.bullet_ids,
                                &self.drone_by_x,
                                ys,
                                b.0,
                                b.1,
                                b.2,
                                b.3,
                            );
                            self.mach_data[i] = t;
                            proof {
                                assert(turret_box.ensures((pos, m.dir), b));
                                assert(crate::machine::turret_stepped(
                                    m,
                                    now,
                                    bullets0,
                                    self.drone_by_x@,
                                    ys@,
                                    b,
                                    t,
                                    self.bullet_ids@,
                                    shot,
                                ));
                                lemma_machine_steps_ok(
                                    n_types,
                                    m,
                                    Seq::empty(),
                                    now,
                                    ItemTypeId(0),
                                    no_chances(),
                                );
                                lemma_machs_changed(
                                    n_types,
                                    self.mach_ids@,
                                    machs0,
                                    self.mach_data@,
                                    self.mach_by_tile@,
                                    i as int,
                                );
                            }
                            if let Some(bullet) = shot {
                                proof {
                                    let q = choose|q: int|
                                        0 <= q < bullets0.len() && !bullets0[q];
                                    crate::lgrn::lemma_first_free_exists(bullets0, q);
                                    let f = choose|f: int| is_first_free(bullets0, f);
                                    assert(is_first_free(bullets0, f));
                                    old(self).bullet_ids.lemma_len_fits();
                                    assert(shot is Some);
                                    assert(shot == Some(BulletId(f as usize)));
                                    assert(bullet.0 == f);
                                    assert(!old(self).bullet_ids@[f]) by {
                                        if old(self).bullet_ids@[f] {
                                            assert(bullets0[f]);
                                        }
                                    }
                                }
                                shots.push((mach, bullet));
                            }
                            proof {
                                assert(crate::machine::turret_acted(
                                    now,
                                    self.drone_by_x@,
                                    ys@,
                                    i as int,
                                    s0,
                                    self.scene(shots@),
                                    b,
                                    t,
                                    shot,
                                ));
                                assert(old(self).acted(turret_box, ys@, i as int, s0, self.scene(shots@)));
                            }
                        },
                        MachineSpec::Conveyor {
                            item,
                            filter,
                            can_move_time_us,
                            can_dump_time_us,
                        } => {
                            if item.count == 0 && can_move_time_us < now {
                                let mut c: Machine = m;
                                let ghost source = take_source(
                                    m,
                                    now,
                                    self.world_size,
                                    self.feral_by_tile@,
                                );
                                let ghost piles0 = self.feral_data@;
                                proof {
                                    if source is Some {
                                        let f = source->Some_0.0 as int;
                                        assert(active_at(self.feral_ids@, f));
                                        lemma_machine_steps_ok(
                                            n_types,
                                            m,
                                            piles0[f].slots@,
                                            now,
                                            ItemTypeId(0),
                                            no_chances(),
                                        );
                                    }
                                }
                                let _ = conveyor_take(
                                    &self.itemtype_data,
                                    self.world_size,
                                    now,
                                    &mut c,
                                    &mut self.feral_ids,
                                    &mut self.feral_data,
                                    &mut self.feral_by_tile,
                                );
                                self.mach_data[i] = c;
                                proof {
                                    assert(crate::machine::taken(
                                        self.world_size,
                                        now,
                                        m,
                                        c,
                                        s0.piles,
                                        s0.pile_data,
                                        s0.pile_by_tile,
                                        self.feral_ids@,
                                        self.feral_data@,
                                        self.feral_by_tile@,
                                    ));
                                    lemma_machs_changed(
                                        n_types,
                                        self.mach_ids@,
                                        machs0,
                                        self.mach_data@,
                                        self.mach_by_tile@,
                                        i as int,
                                    );
                                }
                                proof {
                                    assert(crate::machine::take_acted(
                                        self.world_size,
                                        now,
                                        i as int,
                                        s0,
                                        self.scene(shots@),
                                        c,
                                    ));
                                    assert(old(self).acted(turret_box, ys@, i as int, s0, self.scene(shots@)));
                                }
                            } else if self.piles_have_room() {
                                let ghost ids0 = self.feral_ids@;
                                let ghost data0 = self.feral_data@;
                                let ghost map0 = self.feral_by_tile@;
                                let r: bool = conveyor_dump_random(
                                    &self.itemtype_data,
                                    self.world_size,
                                    now,
                                    mach,
                                    &mut self.mach_data,
                                    &self.mach_by_tile,
                                    &mut self.feral_ids,
                                    &mut self.feral_data,
                                    &mut self.feral_by_tile,
                                );
                                proof {
                                    let chances = choose|chances: Chances| #[trigger]
                                        crate::machine::dumped(
                                            self.itemtype_data@,
                                            self.world_size,
                                            now,
                                            mach,
                                            self.mach_by_tile@,
                                            chances,
                                            machs0,
                                            ids0,
                                            data0,
                                            map0,
                                            self.mach_data@,
                                            self.feral_ids@,
                                            self.feral_data@,
                                            self.feral_by_tile@,
                                            r,
                                        );
                                    lemma_dumped_machs_wf(
                                        self.itemtype_data@,
                                        self.world_size,
                                        now,
                                        mach,
                                        self.mach_by_tile@,
                                        chances,
                                        self.mach_ids@,
                                        machs0,
                                        ids0,
                                        data0,
                                        map0,
                                        self.mach_data@,
                                        self.feral_ids@,
                                        self.feral_data@,
                                        self.feral_by_tile@,
                                        r,
                                    );
                                    crate::machine::lemma_dumped_frame(
                                        self.itemtype_data@,
                                        self.world_size,
                                        now,
                                        mach,
                                        self.mach_by_tile@,
                                        chances,
                                        machs0,
                                        ids0,
                                        data0,
                                        map0,
                                        self.mach_data@,
                                        self.feral_ids@,
                                        self.feral_data@,
                                        self.feral_by_tile@,
                                        r,
                                    );
                                    assert(crate::machine::dump_acted(
                                        self.itemtype_data@,
                                        self.world_size,
                                        now,
                                        self.mach_by_tile@,
                                        i as int,
                                        s0,
                                        self.scene(shots@),
                                        chances,
                                        r,
                                    ));
                                    assert(old(self).acted(turret_box, ys@, i as int, s0, self.scene(shots@)));
                                }
                            }
                        },
                        MachineSpec::Blank => {},
                    }
                }
            }
            proof {
                let s1 = self.scene(shots@);
                assert(old(self).acted(turret_box, ys@, i as int, s0, s1));
                let prior = scenes;
                scenes = prior.push(s1);
                assert forall|j: int| 0 <= j < i + 1 implies machine_acted(
                    turret_box,
                    old(self).itemtype_data@,
                    old(self).world_size,
                    old(self).time_us,
                    old(self).drone_by_x@,
                    ys@,
                    old(self).mach_ids@,
                    old(self).mach_by_tile@,
                    j,
                    #[trigger] scenes[j],
                    scenes[j + 1],
                ) by {
                    assert(scenes[j] == prior[j]);
                    if j < i {
                        assert(scenes[j + 1] == prior[j + 1]);
                    }
                }
            }
            i += 1;
        }
        proof {
            assert(scenes.last() == scenes[cap as int]);
            assert(machines_acted(
                turret_box,
                old(self).itemtype_data@,
                old(self).world_size,
                old(self).time_us,
                old(self).drone_by_x@,
                ys@,
                old(self).mach_ids@,
                old(self).mach_by_tile@,
                scenes,
            ));
        }
        shots
    }

    /// Moves the clock on by `delta_us` microseconds.
    pub fn advance_clock(&mut self, delta_us: u64)
        requires
            old(self).time_us + delta_us <= u64::MAX,
        ensures
            *final(self) == (GameMain {
                time_us: (old(self).time_us + delta_us) as u64,
                ..*old(self)
            }),
    {
        self.time_us = self.time_us + delta_us;
    }
}

/// Whether the handle of slot `i` is among the pending ones.
pub open spec fn is_pending<T: Into<usize> + From<usize> + Copy>(pending: Seq<T>, i: int) -> bool {
    exists|k: int| 0 <= k < pending.len() && IdReg::<T>::index_of(#[trigger] pending[k]) == i
}

/// Carries out the removals that were put down during the last step: every
/// handle of the list is released, and the list is emptied.
pub fn apply_removals<T: Into<usize> + From<usize> + Copy>(
    ids: &mut IdReg<T>,
    pending: &mut Vec<T>,
)
    requires
        old(ids).wf(),
        IdReg::<T>::handles_obey(),
        forall|k: int|
            0 <= k < old(pending)@.len() ==> IdReg::<T>::index_of(#[trigger] old(pending)@[k])
                < old(ids)@.len(),
    ensures
        final(ids).wf(),
        final(pending)@.len() == 0,
        final(ids)@.len() == old(ids)@.len(),
        forall|i: int|
            0 <= i < old(ids)@.len() ==> final(ids)@[i] == (old(ids)@[i] && !is_pending(
                old(pending)@,
                i,
            )),
{
    let n: usize = pending.len();
    let mut k: usize = 0;
    while k < n
        invariant
            k <= n,
            n == pending@.len(),
            pending@ == old(pending)@,
            ids.wf(),
            IdReg::<T>::handles_obey(),
            ids@.len() == old(ids)@.len(),
            forall|j: int|
                0 <= j < pending@.len() ==> IdReg::<T>::index_of(#[trigger] pending@[j])
                    < ids@.len(),
            forall|i: int|
                0 <= i < ids@.len() ==> ids@[i] == (old(ids)@[i] && !is_pending(
                    pending@.take(k as int),
                    i,
                )),
        decreases n - k,
    {
        let ghost before = ids@;
        let id: T = pending[k];
        let _ = ids.remove(id);
        proof {
            let done = pending@.take(k as int);
            let more = pending@.take(k as int + 1);
            assert forall|i: int| 0 <= i < ids@.len() implies ids@[i] == (old(ids)@[i]
                && !is_pending(more, i)) by {
                if is_pending(done, i) {
                    let j = choose|j: int|
                        0 <= j < done.len() && IdReg::<T>::index_of(#[trigger] done[j]) == i;
                    assert(more[j] == done[j]);
                }
                if is_pending(more, i) {
                    let j = choose|j: int|
                        0 <= j < more.len() && IdReg::<T>::index_of(#[trigger] more[j]) == i;
                    if j < k {
                        assert(done[j] == more[j]);
                    }
                }
                if IdReg::<T>::index_of(id) == i {
                    assert(more[k as int] == id);
                }
            }
        }
        k += 1;
    }
    proof {
        assert(pending@.take(n as int) =~= pending@);
    }
    pending.clear();
}

/// Lets a new drone into the world: takes a handle for it, growing the
/// registry where none is free, and files it in the index under the key `x`.
pub fn spawn_drone(drone_ids: &mut IdReg<DroneId>, drone_by_x: &mut Vec<Entry>, x: i64) -> (r:
    DroneId)
    requires
        old(drone_ids).wf(),
        old(drone_ids)@.len() > 0,
        old(drone_ids)@.len() * 2 <= usize::MAX - 63,
    ensures
        final(drone_ids).wf(),
        is_next_slot(old(drone_ids)@, r.0 as int),
        final(drone_ids)@ == with_next_slot(old(drone_ids)@, r.0 as int),
        final(drone_by_x)@ == old(drone_by_x)@.push((r, x)),
{
    let ghost active0 = drone_ids@;
    let id: DroneId = drone_ids.create_resize();
    proof {
        assert(IdReg::<DroneId>::handles_obey());
    }
    drone_by_x.push((id, x));
    id
}

/// Settles a hit of a projectile on a drone. A hit within the destructive
/// cone puts both down for removal and drops one destroyed drone on the tile
/// of the drone, as far as it can be placed there. Any other hit changes
/// nothing here: the projectile is deflected and both stay.
pub fn resolve_hit(
    destructive: bool,
    drone: DroneId,
    bullet: BulletId,
    tile: Tile,
    remove_drones: &mut Vec<DroneId>,
    remove_bullets: &mut Vec<BulletId>,
    item_types: &Vec<ItemType>,
    feral_ids: &mut IdReg<FeralItemId>,
    feral_data: &mut Vec<FeralItem>,
    feral_by_tile: &mut BTreeMap<(u8, u8), FeralItemId>,
)
    requires
        item_types@.len() > ITEM_DEAD_DRONE,
        old(feral_ids).wf(),
        ferals_wf(item_types@.len(), old(feral_ids)@, old(feral_data)@, old(feral_by_tile)@),
        old(feral_ids)@.len() > 0,
        old(feral_ids)@.len() * 2 <= usize::MAX - 63,
    ensures
        final(feral_ids).wf(),
        ferals_wf(item_types@.len(), final(feral_ids)@, final(feral_data)@, final(feral_by_tile)@),
        !destructive ==> {
            &&& final(remove_drones)@ == old(remove_drones)@
            &&& final(remove_bullets)@ == old(remove_bullets)@
            &&& final(feral_ids)@ == old(feral_ids)@
            &&& final(feral_data)@ == old(feral_data)@
            &&& final(feral_by_tile)@ == old(feral_by_tile)@
        },
        destructive ==> {
            &&& final(remove_drones)@ == old(remove_drones)@.push(drone)
            &&& final(remove_bullets)@ == old(remove_bullets)@.push(bullet)
            &&& exists|r: Result<FeralItemId, (FeralItemId, ItemSlot, bool)>| #[trigger]
                placed(
                    item_types@,
                    old(feral_ids)@,
                    old(feral_data)@,
                    old(feral_by_tile)@,
                    final(feral_ids)@,
                    final(feral_data)@,
                    final(feral_by_tile)@,
                    tile,
                    (ItemSlot { itemtype: ItemTypeId(ITEM_DEAD_DRONE), count: 1 }),
                    r,
                )
        },
{
    if destructive {
        remove_drones.push(drone);
        remove_bullets.push(bullet);
        let _ = place_item(
            item_types,
            feral_ids,
            feral_data,
            feral_by_tile,
            tile,
            ItemSlot { itemtype: ItemTypeId(ITEM_DEAD_DRONE), count: 1 },
        );
    }
}

} // verus!
