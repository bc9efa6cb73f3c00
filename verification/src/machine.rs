//! Machine automation: turrets that fire at drones, and conveyors that move
//! items from the tile behind them to the tile in front.

use crate::game::dir_step;
use crate::game::dir_to_ivec2;
use crate::game::tile_key;
use crate::game::tile_key_of;
use crate::game::BulletId;
use crate::game::Dir;
use crate::game::FeralItem;
use crate::game::FeralItemId;
use crate::game::ItemSlot;
use crate::game::ItemType;
use crate::game::ItemTypeId;
use crate::game::Machine;
use crate::game::MachineId;
use crate::game::MachineSpec;
use crate::game::Tile;
use crate::game::ITEM_ALIGNITE;
use crate::game::ITEM_BATTERY;
use crate::game::ITEM_BULLET;
use crate::game::ITEM_CLUMP;
use crate::game::ITEM_DEAD_DRONE;
use crate::game::ITEM_OBFUSCATOR;
use crate::game::ITEM_SCRAP;
use crate::game::TURRET_AMMO_MAX;
use crate::items::active_at;
use crate::items::all_empty;
use crate::items::compacted;
use crate::items::drained;
use crate::items::feral_remove_if_empty;
use crate::items::ferals_wf;
use crate::items::ferals_wf_but;
use crate::items::front_taken;
use crate::items::lemma_front_taken_sound;
use crate::items::lemma_take_sound;
use crate::items::place_item;
use crate::items::placed;
use crate::items::take_front;
use crate::items::take_items;
use crate::items::total_of;
use crate::lgrn::has_free;
use crate::lgrn::is_first_free;
use crate::lgrn::IdReg;
use crate::spatial::first_in_box;
use crate::spatial::in_box;
use crate::spatial::sorted_by_x;
use crate::spatial::Entry;
use crate::tiles::tile_lookup;
use std::collections::BTreeMap;
use vstd::prelude::*;

verus! {

/// Time between two shots of a turret, in microseconds.
pub const TURRET_PERIOD: u64 = 1500000;

/// Time after a take before a conveyor takes again, in microseconds.
pub const CONVEY_TAKE_PERIOD: u64 = 250000;

/// Time after a take or a dump before a conveyor dumps, in microseconds.
pub const CONVEY_DUMP_PERIOD: u64 = 100000;

/// The latest clock value at which every cooldown can still be set.
pub const TIME_MAX: u64 = u64::MAX - TURRET_PERIOD;

/// When a turret that was due at `due` and fires at `now` may fire next: one
/// period after `now`, moved back to the next time that lies a whole number
/// of periods after `due`.
pub open spec fn next_fire_time(now: u64, due: u64) -> int {
    now + TURRET_PERIOD - (now - due) % (TURRET_PERIOD as int)
}

/// When a turret that was due at `due` and fires at `now` may fire next.
pub fn turret_reschedule(now: u64, due: u64) -> (r: u64)
    requires
        due < now,
        now <= TIME_MAX,
    ensures
        r == next_fire_time(now, due),
        now < r <= now + TURRET_PERIOD,
        (r - due) % (TURRET_PERIOD as int) == 0,
{
    let late: u64 = (now - due) % TURRET_PERIOD;
    let r: u64 = now + TURRET_PERIOD - late;
    proof {
        let p = TURRET_PERIOD as int;
        let d = (now - due) as int;
        assert(d == p * (d / p) + d % p) by (nonlinear_arith)
            requires
                p > 0,
        ;
        assert(r - due == p * (d / p + 1)) by (nonlinear_arith)
            requires
                r - due == d + p - d % p,
                d == p * (d / p) + d % p,
        ;
        assert((p * (d / p + 1)) % p == 0) by (nonlinear_arith)
            requires
                p > 0,
        ;
    }
    r
}

/// A number drawn at random from `low..high`.
///
/// Calls `macroquad::rand::gen_range` on two `i32`. That function scales a
/// 32-bit sample to the width of the range, adds `low` and cuts the fraction
/// off. Taken on trust, for bounds that are not negative and at most
/// 1,000,000: the result is at least `low` and less than `high`. Nothing is
/// said of which number comes.
#[verifier::external_body]
fn gen_range(low: i32, high: i32) -> (r: i32)
    requires
        0 <= low < high <= 1000000,
    ensures
        low <= r < high,
{
    macroquad::rand::gen_range(low, high)
}

/// Whether a turret in this state shoots at a drone it sees: it holds
/// ammunition and its cooldown has passed.
pub open spec fn turret_ready(m: Machine, now: u64) -> bool {
    match m.spec {
        MachineSpec::Turret { ammo, can_fire_time_us } => ammo != 0 && can_fire_time_us < now,
        _ => false,
    }
}

/// The turret after a shot at `now`.
pub open spec fn turret_after_shot(m: Machine, now: u64) -> Machine {
    match m.spec {
        MachineSpec::Turret { ammo, can_fire_time_us } => Machine {
            pos: m.pos,
            dir: m.dir,
            spec: MachineSpec::Turret {
                ammo: (ammo - 1) as u32,
                can_fire_time_us: next_fire_time(now, can_fire_time_us) as u64,
            },
        },
        _ => m,
    }
}

/// Whether some drone of the index lies strictly inside the box.
pub open spec fn drone_in_box(
    index: Seq<Entry>,
    ys: Seq<i64>,
    x_lo: i64,
    x_hi: i64,
    y_lo: i64,
    y_hi: i64,
) -> bool {
    exists|j: int| 0 <= j < index.len() && in_box(#[trigger] index[j], ys, x_lo, x_hi, y_lo, y_hi)
}

/// What one step does to a turret and to the registry of projectiles, and
/// the handle of the projectile it shot, if it shot. It shoots exactly if it
/// is ready, a drone lies in the box, and a handle is free; it then is as
/// `turret_after_shot` says, and the lowest free handle is taken. Else
/// nothing changes.
pub open spec fn turret_stepped(
    m0: Machine,
    now: u64,
    bullets0: Seq<bool>,
    index: Seq<Entry>,
    ys: Seq<i64>,
    sight: (i64, i64, i64, i64),
    m1: Machine,
    bullets1: Seq<bool>,
    shot: Option<BulletId>,
) -> bool {
    &&& shot is Some <==> turret_ready(m0, now) && drone_in_box(
        index,
        ys,
        sight.0,
        sight.1,
        sight.2,
        sight.3,
    ) && has_free(bullets0)
    &&& shot is Some ==> m1 == turret_after_shot(m0, now)
    &&& shot is Some ==> forall|p: int| #[trigger]
        is_first_free(bullets0, p) ==> {
            &&& shot == Some(BulletId(p as usize))
            &&& bullets1 == bullets0.update(p, true)
        }
    &&& shot is None ==> m1 == m0 && bullets1 == bullets0
}

/// Lets a turret shoot if it is ready, sees a drone inside its detection box
/// and a projectile handle is free: it then loses one round, its cooldown is
/// set anew, and the handle of the new projectile is returned. Otherwise
/// nothing changes.
pub fn turret_step(
    mach: &mut Machine,
    now: u64,
    bullet_ids: &mut IdReg<BulletId>,
    index: &Vec<Entry>,
    ys: &Vec<i64>,
    x_lo: i64,
    x_hi: i64,
    y_lo: i64,
    y_hi: i64,
) -> (r: Option<BulletId>)
    requires
        old(bullet_ids).wf(),
        now <= TIME_MAX,
        sorted_by_x(index@),
        forall|i: int| 0 <= i < index@.len() ==> (#[trigger] index@[i]).0.0 < ys@.len(),
    ensures
        final(bullet_ids).wf(),
        r is Some <==> turret_ready(*old(mach), now) && drone_in_box(
            index@,
            ys@,
            x_lo,
            x_hi,
            y_lo,
            y_hi,
        ) && has_free(old(bullet_ids)@),
        r is Some ==> *final(mach) == turret_after_shot(*old(mach), now),
        r is Some ==> forall|p: int|
            is_first_free(old(bullet_ids)@, p) ==> {
                &&& r == Some(BulletId(p as usize))
                &&& final(bullet_ids)@ == old(bullet_ids)@.update(p, true)
            },
        r is None ==> *final(mach) == *old(mach) && final(bullet_ids)@ == old(bullet_ids)@,
        turret_stepped(
            *old(mach),
            now,
            old(bullet_ids)@,
            index@,
            ys@,
            (x_lo, x_hi, y_lo, y_hi),
            *final(mach),
            final(bullet_ids)@,
            r,
        ),
{
    match mach.spec {
        MachineSpec::Turret { ammo, can_fire_time_us } => {
            if ammo != 0 && can_fire_time_us < now {
                let seen: Option<usize> = first_in_box(index, ys, x_lo, x_hi, y_lo, y_hi);
                if seen.is_some() {
                    proof {
                        assert(in_box(index@[seen->0 as int], ys@, x_lo, x_hi, y_lo, y_hi));
                    }
                    let bullet: Option<BulletId> = bullet_ids.create();
                    if bullet.is_some() {
                        mach.spec = MachineSpec::Turret {
                            ammo: ammo - 1,
                            can_fire_time_us: turret_reschedule(now, can_fire_time_us),
                        };
                        proof {
                            assert(IdReg::<BulletId>::handles_obey());
                            assert forall|p: int| is_first_free(old(bullet_ids)@, p) implies bullet
                                == Some(BulletId(p as usize)) by {
                                assert(bullet == Some(IdReg::<BulletId>::handle_of(p)));
                            }
                        }
                    }
                    return bullet;
                }
            }
            None
        },
        _ => None,
    }
}

/// The tile one step from `pos`, if it lies in the world.
pub open spec fn tile_toward(pos: Tile, step: (int, int), world_size: Tile) -> Option<Tile> {
    let x = pos.x + step.0;
    let y = pos.y + step.1;
    if 0 <= x < world_size.x && 0 <= y < world_size.y {
        Some(Tile { x: x as u32, y: y as u32 })
    } else {
        None
    }
}

/// The tile in front of a machine at `pos` that faces `dir`, or behind it,
/// if that tile lies in the world.
pub fn neighbour(pos: Tile, dir: Dir, behind: bool, world_size: Tile) -> (r: Option<Tile>)
    ensures
        r == tile_toward(
            pos,
            if behind {
                (-dir_step(dir).0, -dir_step(dir).1)
            } else {
                dir_step(dir)
            },
            world_size,
        ),
{
    let d: (i32, i32) = dir_to_ivec2(&dir);
    let dx: i64 = if behind {
        -(d.0 as i64)
    } else {
        d.0 as i64
    };
    let dy: i64 = if behind {
        -(d.1 as i64)
    } else {
        d.1 as i64
    };
    let x: i64 = pos.x as i64 + dx;
    let y: i64 = pos.y as i64 + dy;
    if 0 <= x && x < world_size.x as i64 && 0 <= y && y < world_size.y as i64 {
        Some(Tile { x: x as u32, y: y as u32 })
    } else {
        None
    }
}

/// Whether a machine takes one item of the given type from a conveyor: a
/// turret that is not full takes a bullet, an empty conveyor takes anything.
pub open spec fn machine_accepts(m: Machine, itemtype: ItemTypeId) -> bool {
    match m.spec {
        MachineSpec::Turret { ammo, can_fire_time_us } => itemtype.0 == ITEM_BULLET && ammo
            < TURRET_AMMO_MAX,
        MachineSpec::Conveyor { item, filter, can_move_time_us, can_dump_time_us } => item.count
            == 0,
        MachineSpec::Blank => false,
    }
}

/// The machine after it took one item of the given type at `now`: a turret
/// has one round more; a conveyor holds the item and may dump it one dump
/// period later.
pub open spec fn machine_after_accept(m: Machine, itemtype: ItemTypeId, now: u64) -> Machine {
    match m.spec {
        MachineSpec::Turret { ammo, can_fire_time_us } => Machine {
            pos: m.pos,
            dir: m.dir,
            spec: MachineSpec::Turret { ammo: (ammo + 1) as u32, can_fire_time_us },
        },
        MachineSpec::Conveyor { item, filter, can_move_time_us, can_dump_time_us } => Machine {
            pos: m.pos,
            dir: m.dir,
            spec: MachineSpec::Conveyor {
                item: ItemSlot { itemtype, count: 1 },
                filter,
                can_move_time_us,
                can_dump_time_us: (now + CONVEY_DUMP_PERIOD) as u64,
            },
        },
        MachineSpec::Blank => m,
    }
}

/// Offers one item of the given type to the machine in front of a conveyor.
/// Returns whether the machine took it.
pub fn offer_item(front: &mut Machine, itemtype: ItemTypeId, now: u64) -> (r: bool)
    requires
        now <= TIME_MAX,
    ensures
        r == machine_accepts(*old(front), itemtype),
        *final(front) == if r {
            machine_after_accept(*old(front), itemtype, now)
        } else {
            *old(front)
        },
{
    match front.spec {
        MachineSpec::Turret { ammo, can_fire_time_us } => {
            if itemtype.0 == ITEM_BULLET && ammo < TURRET_AMMO_MAX {
                front.spec = MachineSpec::Turret { ammo: ammo + 1, can_fire_time_us };
                true
            } else {
                false
            }
        },
        MachineSpec::Conveyor { item, filter, can_move_time_us, can_dump_time_us } => {
            if item.count == 0 {
                front.spec = MachineSpec::Conveyor {
                    item: ItemSlot { itemtype, count: 1 },
                    filter,
                    can_move_time_us,
                    can_dump_time_us: now + CONVEY_DUMP_PERIOD,
                };
                true
            } else {
                false
            }
        },
        MachineSpec::Blank => false,
    }
}

/// The step from a tile to the tile behind a machine that faces `dir`.
pub open spec fn step_back(dir: Dir) -> (int, int) {
    (-dir_step(dir).0, -dir_step(dir).1)
}

/// The pile from which a conveyor takes at `now`: the conveyor stands on a
/// tile, holds nothing, its take cooldown has passed, and a pile lies on the
/// tile behind it.
pub open spec fn take_source(
    m: Machine,
    now: u64,
    world_size: Tile,
    by_tile: Map<(u8, u8), FeralItemId>,
) -> Option<FeralItemId> {
    match (m.pos, m.spec) {
        (
            Some(pos),
            MachineSpec::Conveyor { item, filter, can_move_time_us, can_dump_time_us },
        ) => if item.count == 0 && can_move_time_us < now {
            match tile_toward(pos, step_back(m.dir), world_size) {
                Some(back) => if by_tile.contains_key(tile_key_of(back)) {
                    Some(by_tile[tile_key_of(back)])
                } else {
                    None
                },
                None => None,
            }
        } else {
            None
        },
        _ => None,
    }
}

/// Whether a conveyor takes only the item type it is set to: it has a filter,
/// and a type was set.
pub open spec fn takes_by_filter(m: Machine) -> bool {
    match m.spec {
        MachineSpec::Conveyor { item, filter, can_move_time_us, can_dump_time_us } => filter
            && item.itemtype.0 != usize::MAX,
        _ => false,
    }
}

/// The slots of the pile after the conveyor took from it: one item of its
/// type, or else one item from the front slot.
pub open spec fn pile_after_take(m: Machine, slots: Seq<Option<ItemSlot>>) -> Seq<Option<ItemSlot>> {
    if takes_by_filter(m) {
        compacted(drained(slots, m.spec->Conveyor_item.itemtype, 1))
    } else {
        front_taken(slots)
    }
}

/// The conveyor after it took from a pile with the given slots at `now`:
/// both cooldowns are set anew, and it holds what it took.
pub open spec fn conveyor_after_take(m: Machine, slots: Seq<Option<ItemSlot>>, now: u64) -> Machine {
    match m.spec {
        MachineSpec::Conveyor { item, filter, can_move_time_us, can_dump_time_us } => Machine {
            pos: m.pos,
            dir: m.dir,
            spec: MachineSpec::Conveyor {
                item: if takes_by_filter(m) {
                    ItemSlot {
                        itemtype: item.itemtype,
                        count: if total_of(slots, item.itemtype) >= 1 {
                            1
                        } else {
                            0
                        },
                    }
                } else {
                    ItemSlot { itemtype: slots[0]->0.itemtype, count: 1 }
                },
                filter,
                can_move_time_us: (now + CONVEY_TAKE_PERIOD) as u64,
                can_dump_time_us: (now + CONVEY_DUMP_PERIOD) as u64,
            },
        },
        _ => m,
    }
}

/// What a take does to a conveyor and to the piles. Where the conveyor is
/// not due to take or no pile lies behind it (see `take_source`) nothing
/// changes. Else the conveyor is as `conveyor_after_take` says, the pile is
/// left with the slots that `pile_after_take` gives, and a pile left empty is
/// released and taken out of the index.
pub open spec fn taken(
    world_size: Tile,
    now: u64,
    m0: Machine,
    m1: Machine,
    ids0: Seq<bool>,
    data0: Seq<FeralItem>,
    map0: Map<(u8, u8), FeralItemId>,
    ids1: Seq<bool>,
    data1: Seq<FeralItem>,
    map1: Map<(u8, u8), FeralItemId>,
) -> bool {
    match take_source(m0, now, world_size, map0) {
        None => m1 == m0 && ids1 == ids0 && data1 == data0 && map1 == map0,
        Some(feral) => {
            let slots = data0[feral.0 as int].slots@;
            let after = pile_after_take(m0, slots);
            &&& m1 == conveyor_after_take(m0, slots, now)
            &&& data1.len() == data0.len()
            &&& forall|i: int| 0 <= i < data0.len() && i != feral.0 ==> data1[i] == data0[i]
            &&& data1[feral.0 as int].pos == data0[feral.0 as int].pos
            &&& data1[feral.0 as int].slots@ == after
            &&& ids1 == if all_empty(after) {
                ids0.update(feral.0 as int, false)
            } else {
                ids0
            }
            &&& map1 == if all_empty(after) {
                map0.remove(tile_key_of(data0[feral.0 as int].pos))
            } else {
                map0
            }
        },
    }
}

/// Lets a conveyor take one item from the pile behind it, if it is due to:
/// see `take_source`. A conveyor with a filter that was set takes an item of
/// its type, if the pile holds one; any other conveyor takes from the front
/// slot of the pile. A pile left empty is removed from the world. Returns
/// whether the conveyor now holds an item.
pub fn conveyor_take(
    item_types: &Vec<ItemType>,
    world_size: Tile,
    now: u64,
    mach: &mut Machine,
    feral_ids: &mut IdReg<FeralItemId>,
    feral_data: &mut Vec<FeralItem>,
    feral_by_tile: &mut BTreeMap<(u8, u8), FeralItemId>,
) -> (r: bool)
    requires
        now <= TIME_MAX,
        old(feral_ids).wf(),
        ferals_wf(item_types@.len(), old(feral_ids)@, old(feral_data)@, old(feral_by_tile)@),
    ensures
        final(feral_ids).wf(),
        ferals_wf(item_types@.len(), final(feral_ids)@, final(feral_data)@, final(feral_by_tile)@),
        final(feral_data)@.len() == old(feral_data)@.len(),
        taken(
            world_size,
            now,
            *old(mach),
            *final(mach),
            old(feral_ids)@,
            old(feral_data)@,
            old(feral_by_tile)@,
            final(feral_ids)@,
            final(feral_data)@,
            final(feral_by_tile)@,
        ),
        match take_source(*old(mach), now, world_size, old(feral_by_tile)@) {
            None => {
                &&& !r
                &&& *final(mach) == *old(mach)
                &&& final(feral_ids)@ == old(feral_ids)@
                &&& final(feral_data)@ == old(feral_data)@
                &&& final(feral_by_tile)@ == old(feral_by_tile)@
            },
            Some(feral) => {
                let slots = old(feral_data)@[feral.0 as int].slots@;
                let after = pile_after_take(*old(mach), slots);
                &&& *final(mach) == conveyor_after_take(*old(mach), slots, now)
                &&& r == (final(mach).spec->Conveyor_item.count == 1)
                &&& forall|i: int|
                    0 <= i < old(feral_data)@.len() && i != feral.0 ==> final(feral_data)@[i]
                        == old(feral_data)@[i]
                &&& final(feral_data)@[feral.0 as int].pos == old(feral_data)@[feral.0 as int].pos
                &&& final(feral_data)@[feral.0 as int].slots@ == after
                &&& final(feral_ids)@ == if all_empty(after) {
                    old(feral_ids)@.update(feral.0 as int, false)
                } else {
                    old(feral_ids)@
                }
                &&& final(feral_by_tile)@ == if all_empty(after) {
                    old(feral_by_tile)@.remove(tile_key_of(old(feral_data)@[feral.0 as int].pos))
                } else {
                    old(feral_by_tile)@
                }
            },
        },
{
    let pos: Tile = match mach.pos {
        Some(p) => p,
        None => {
            return false;
        },
    };
    match mach.spec {
        MachineSpec::Conveyor { item, filter, can_move_time_us, can_dump_time_us } => {
            if !(item.count == 0 && can_move_time_us < now) {
                return false;
            }
            let back: Tile = match neighbour(pos, mach.dir, true, world_size) {
                Some(b) => b,
                None => {
                    return false;
                },
            };
            let feral: FeralItemId = match tile_lookup(feral_by_tile, tile_key(back)) {
                Some(f) => f,
                None => {
                    return false;
                },
            };
            proof {
                assert(active_at(feral_ids@, feral.0 as int));
            }
            let ghost slots = feral_data@[feral.0 as int].slots@;
            let mut d: FeralItem = feral_data[feral.0];
            let new_item: ItemSlot = if filter && item.itemtype.0 != usize::MAX {
                let taken: u32 = take_items(&mut d.slots, item.itemtype, 1);
                proof {
                    lemma_take_sound(item_types@.len(), slots, item.itemtype, 1);
                }
                ItemSlot {
                    itemtype: item.itemtype,
                    count: if taken == 1 {
                        1
                    } else {
                        0
                    },
                }
            } else {
                proof {
                    lemma_front_taken_sound(item_types@.len(), slots);
                }
                let t: ItemTypeId = take_front(&mut d.slots);
                ItemSlot { itemtype: t, count: 1 }
            };
            feral_data[feral.0] = d;
            mach.spec = MachineSpec::Conveyor {
                item: new_item,
                filter,
                can_move_time_us: now + CONVEY_TAKE_PERIOD,
                can_dump_time_us: now + CONVEY_DUMP_PERIOD,
            };
            proof {
                assert forall|i: int| #[trigger] active_at(feral_ids@, i) implies {
                    &&& i < feral_data@.len()
                    &&& crate::items::pile_sound(item_types@.len(), feral_data@[i].slots@)
                    &&& i != feral.0 ==> feral_data@[i].slots@[0] is Some
                    &&& feral_by_tile@.contains_key(tile_key_of(feral_data@[i].pos))
                    &&& feral_by_tile@[tile_key_of(feral_data@[i].pos)] == FeralItemId(i as usize)
                } by {
                    if i != feral.0 {
                        assert(feral_data@[i] == old(feral_data)@[i]);
                    }
                }
                assert forall|k: (u8, u8)| #[trigger] feral_by_tile@.contains_key(k) implies {
                    &&& active_at(feral_ids@, feral_by_tile@[k].0 as int)
                    &&& feral_by_tile@[k].0 < feral_data@.len()
                    &&& tile_key_of(feral_data@[feral_by_tile@[k].0 as int].pos) == k
                } by {
                    let v = feral_by_tile@[k].0 as int;
                    if v != feral.0 {
                        assert(feral_data@[v] == old(feral_data)@[v]);
                    }
                }
                assert forall|i: int|
                    0 <= i < feral_data@.len() && !active_at(feral_ids@, i) implies all_empty(
                    (#[trigger] feral_data@[i]).slots@,
                ) by {
                    assert(feral_data@[i] == old(feral_data)@[i]);
                }
                assert(ferals_wf_but(
                    item_types@.len(),
                    feral_ids@,
                    feral_data@,
                    feral_by_tile@,
                    feral.0 as int,
                ));
            }
            feral_remove_if_empty(feral_ids, feral_data, feral_by_tile, feral);
            new_item.count == 1
        },
        _ => false,
    }
}

/// How the draws of chance fell for one dump of a conveyor on the ground.
#[derive(Clone, Copy, PartialEq, Eq, Structural, Debug)]
pub struct Chances {
    /// A destroyed drone is taken apart in place of being dropped.
    pub disassemble: bool,
    /// Taking a drone apart gives a crystal besides the scrap.
    pub bonus: bool,
    /// A clump turns into an obfuscator charge in place of being dropped.
    pub misalign: bool,
}

/// What a conveyor does with its item when it dumps on the ground.
#[derive(Clone, Copy, PartialEq, Eq, Structural, Debug)]
pub enum GroundDump {
    /// Drops scrap, maybe a crystal too, and keeps a battery.
    Disassemble,
    /// Drops an obfuscator charge in place of its clump.
    Misalign,
    /// Drops the item.
    Plain,
}

/// The tile on which a conveyor dumps at `now`: the conveyor stands on a
/// tile, holds an item, its dump cooldown has passed, and the tile in front
/// of it lies in the world.
pub open spec fn dump_target(m: Machine, now: u64, world_size: Tile) -> Option<Tile> {
    match (m.pos, m.spec) {
        (
            Some(pos),
            MachineSpec::Conveyor { item, filter, can_move_time_us, can_dump_time_us },
        ) => if item.count != 0 && can_dump_time_us < now {
            tile_toward(pos, dir_step(m.dir), world_size)
        } else {
            None
        },
        _ => None,
    }
}

/// The rules of dumping on the ground, in their order: a conveyor without a
/// filter that holds one destroyed drone takes it apart if chance has it so;
/// one that holds one clump misaligns it if chance has it so; anything else
/// is dropped.
pub open spec fn ground_dump_by(filter: bool, item: ItemSlot, chances: Chances) -> GroundDump {
    if !filter && item.count == 1 && item.itemtype.0 == ITEM_DEAD_DRONE && chances.disassemble {
        GroundDump::Disassemble
    } else if !filter && item.count == 1 && item.itemtype.0 == ITEM_CLUMP && chances.misalign {
        GroundDump::Misalign
    } else {
        GroundDump::Plain
    }
}

/// What a machine does with its item when it dumps on the ground; a machine
/// that is no conveyor drops it.
pub open spec fn ground_dump_of(m: Machine, chances: Chances) -> GroundDump {
    match m.spec {
        MachineSpec::Conveyor {
            item,
            filter,
            can_move_time_us,
            can_dump_time_us,
        } => ground_dump_by(filter, item, chances),
        _ => GroundDump::Plain,
    }
}

/// What a conveyor does with its item when it dumps on the ground.
pub fn ground_dump(filter: bool, item: ItemSlot, chances: Chances) -> (r: GroundDump)
    ensures
        r == ground_dump_by(filter, item, chances),
{
    if !filter && item.count == 1 && item.itemtype.0 == ITEM_DEAD_DRONE && chances.disassemble {
        GroundDump::Disassemble
    } else if !filter && item.count == 1 && item.itemtype.0 == ITEM_CLUMP && chances.misalign {
        GroundDump::Misalign
    } else {
        GroundDump::Plain
    }
}

/// The conveyor after it gave one item away at `now`.
pub open spec fn conveyor_after_dump(m: Machine, now: u64) -> Machine {
    match m.spec {
        MachineSpec::Conveyor { item, filter, can_move_time_us, can_dump_time_us } => Machine {
            pos: m.pos,
            dir: m.dir,
            spec: MachineSpec::Conveyor {
                item: ItemSlot { itemtype: item.itemtype, count: (item.count - 1) as u32 },
                filter,
                can_move_time_us,
                can_dump_time_us: (now + CONVEY_DUMP_PERIOD) as u64,
            },
        },
        _ => m,
    }
}

/// The conveyor after it took a destroyed drone apart at `now`: it holds a
/// battery in place of the drone.
pub open spec fn conveyor_after_disassembly(m: Machine, now: u64) -> Machine {
    match m.spec {
        MachineSpec::Conveyor { item, filter, can_move_time_us, can_dump_time_us } => Machine {
            pos: m.pos,
            dir: m.dir,
            spec: MachineSpec::Conveyor {
                item: ItemSlot { itemtype: ItemTypeId(ITEM_BATTERY), count: item.count },
                filter,
                can_move_time_us,
                can_dump_time_us: (now + CONVEY_DUMP_PERIOD) as u64,
            },
        },
        _ => m,
    }
}

/// One item of the catalog's type number `itemtype`.
pub open spec fn one_of(itemtype: usize) -> ItemSlot {
    ItemSlot { itemtype: ItemTypeId(itemtype), count: 1 }
}

/// What a dump on the ground at the tile `front` does to the piles, and
/// whether the conveyor got rid of its item (`r`). Taking a drone apart places
/// one scrap, and then, if chance has it so, one crystal, which may fail
/// unnoticed. The other dumps place one item. The conveyor gets rid of its
/// item if the first placement succeeds.
pub open spec fn ground_dumped(
    item_types: Seq<ItemType>,
    m: Machine,
    front: Tile,
    chances: Chances,
    ids0: Seq<bool>,
    data0: Seq<FeralItem>,
    map0: Map<(u8, u8), FeralItemId>,
    ids1: Seq<bool>,
    data1: Seq<FeralItem>,
    map1: Map<(u8, u8), FeralItemId>,
    r: bool,
) -> bool {
    match ground_dump_of(m, chances) {
        GroundDump::Disassemble => exists|
            idsm: Seq<bool>,
            datam: Seq<FeralItem>,
            mapm: Map<(u8, u8), FeralItemId>,
            r1: Result<FeralItemId, (FeralItemId, ItemSlot, bool)>,
        |
            {
                &&& #[trigger] placed(
                    item_types,
                    ids0,
                    data0,
                    map0,
                    idsm,
                    datam,
                    mapm,
                    front,
                    one_of(ITEM_SCRAP),
                    r1,
                )
                &&& if chances.bonus {
                    exists|r2: Result<FeralItemId, (FeralItemId, ItemSlot, bool)>| #[trigger]
                        placed(
                            item_types,
                            idsm,
                            datam,
                            mapm,
                            ids1,
                            data1,
                            map1,
                            front,
                            one_of(ITEM_ALIGNITE),
                            r2,
                        )
                } else {
                    ids1 == idsm && data1 == datam && map1 == mapm
                }
                &&& r == (r1 is Ok)
            },
        GroundDump::Misalign => exists|r1: Result<FeralItemId, (FeralItemId, ItemSlot, bool)>|
            {
                &&& #[trigger] placed(
                    item_types,
                    ids0,
                    data0,
                    map0,
                    ids1,
                    data1,
                    map1,
                    front,
                    one_of(ITEM_OBFUSCATOR),
                    r1,
                )
                &&& r == (r1 is Ok)
            },
        GroundDump::Plain => exists|r1: Result<FeralItemId, (FeralItemId, ItemSlot, bool)>|
            {
                &&& #[trigger] placed(
                    item_types,
                    ids0,
                    data0,
                    map0,
                    ids1,
                    data1,
                    map1,
                    front,
                    one_of(m.spec->Conveyor_item.itemtype.0),
                    r1,
                )
                &&& r == (r1 is Ok)
            },
    }
}

/// The conveyor after a dump on the ground that got rid of its item.
pub open spec fn conveyor_after_ground_dump(m: Machine, chances: Chances, now: u64) -> Machine {
    if ground_dump_of(m, chances) == GroundDump::Disassemble {
        conveyor_after_disassembly(m, now)
    } else {
        conveyor_after_dump(m, now)
    }
}

/// What a dump of the conveyor `mach` at `now` does, and whether the
/// conveyor got rid of its item (`r`). Where no dump is due (see
/// `dump_target`) nothing changes. A machine on the tile in front is offered
/// the item, and the piles stay as they are. Else the item is dumped on the
/// ground, and no other machine changes.
pub open spec fn dumped(
    item_types: Seq<ItemType>,
    world_size: Tile,
    now: u64,
    mach: MachineId,
    mach_by_tile: Map<(u8, u8), MachineId>,
    chances: Chances,
    machs0: Seq<Machine>,
    ids0: Seq<bool>,
    data0: Seq<FeralItem>,
    map0: Map<(u8, u8), FeralItemId>,
    machs1: Seq<Machine>,
    ids1: Seq<bool>,
    data1: Seq<FeralItem>,
    map1: Map<(u8, u8), FeralItemId>,
    r: bool,
) -> bool {
    let m = machs0[mach.0 as int];
    match dump_target(m, now, world_size) {
        None => {
            &&& !r
            &&& machs1 == machs0
            &&& ids1 == ids0
            &&& data1 == data0
            &&& map1 == map0
        },
        Some(front) => if mach_by_tile.contains_key(tile_key_of(front)) {
            let fm = mach_by_tile[tile_key_of(front)].0 as int;
            &&& ids1 == ids0
            &&& data1 == data0
            &&& map1 == map0
            &&& r == machine_accepts(machs0[fm], m.spec->Conveyor_item.itemtype)
            &&& machs1 == if r {
                machs0.update(
                    fm,
                    machine_after_accept(machs0[fm], m.spec->Conveyor_item.itemtype, now),
                ).update(mach.0 as int, conveyor_after_dump(m, now))
            } else {
                machs0
            }
        } else {
            &&& ground_dumped(item_types, m, front, chances, ids0, data0, map0, ids1, data1, map1, r)
            &&& machs1 == if r {
                machs0.update(mach.0 as int, conveyor_after_ground_dump(m, chances, now))
            } else {
                machs0
            }
        },
    }
}

/// Whether the registry of piles can double its capacity twice.
pub open spec fn piles_can_grow(ids: Seq<bool>) -> bool {
    0 < ids.len() && ids.len() * 4 <= usize::MAX - 63
}

/// A conveyor that holds an item holds one of a type of the catalog.
pub open spec fn conveyor_item_valid(n_types: nat, m: Machine) -> bool {
    match m.spec {
        MachineSpec::Conveyor { item, filter, can_move_time_us, can_dump_time_us } => item.count
            != 0 ==> item.itemtype.0 < n_types,
        _ => true,
    }
}

/// Lets the conveyor `mach` dump its item, if it is due to: into the machine
/// on the tile in front of it, or else on the ground there, by the rules of
/// `ground_dump_by` and as chance fell. Returns whether the conveyor got rid
/// of its item.
pub fn conveyor_dump(
    item_types: &Vec<ItemType>,
    world_size: Tile,
    now: u64,
    mach: MachineId,
    mach_data: &mut Vec<Machine>,
    mach_by_tile: &BTreeMap<(u8, u8), MachineId>,
    feral_ids: &mut IdReg<FeralItemId>,
    feral_data: &mut Vec<FeralItem>,
    feral_by_tile: &mut BTreeMap<(u8, u8), FeralItemId>,
    chances: Chances,
) -> (r: bool)
    requires
        now <= TIME_MAX,
        item_types@.len() > ITEM_OBFUSCATOR,
        mach.0 < old(mach_data)@.len(),
        conveyor_item_valid(item_types@.len(), old(mach_data)@[mach.0 as int]),
        forall|k: (u8, u8)| #[trigger]
            mach_by_tile@.contains_key(k) ==> mach_by_tile@[k].0 < old(mach_data)@.len(),
        old(feral_ids).wf(),
        ferals_wf(item_types@.len(), old(feral_ids)@, old(feral_data)@, old(feral_by_tile)@),
        piles_can_grow(old(feral_ids)@),
    ensures
        final(feral_ids).wf(),
        ferals_wf(item_types@.len(), final(feral_ids)@, final(feral_data)@, final(feral_by_tile)@),
        final(mach_data)@.len() == old(mach_data)@.len(),
        old(feral_ids)@.len() <= final(feral_ids)@.len() <= old(feral_ids)@.len() * 4,
        dumped(
            item_types@,
            world_size,
            now,
            mach,
            mach_by_tile@,
            chances,
            old(mach_data)@,
            old(feral_ids)@,
            old(feral_data)@,
            old(feral_by_tile)@,
            final(mach_data)@,
            final(feral_ids)@,
            final(feral_data)@,
            final(feral_by_tile)@,
            r,
        ),
{
    let m: Machine = mach_data[mach.0];
    let pos: Tile = match m.pos {
        Some(p) => p,
        None => {
            return false;
        },
    };
    match m.spec {
        MachineSpec::Conveyor { item, filter, can_move_time_us, can_dump_time_us } => {
            if !(item.count != 0 && can_dump_time_us < now) {
                return false;
            }
            let front: Tile = match neighbour(pos, m.dir, false, world_size) {
                Some(f) => f,
                None => {
                    return false;
                },
            };
            let gone: Machine = Machine {
                pos: m.pos,
                dir: m.dir,
                spec: MachineSpec::Conveyor {
                    item: ItemSlot { itemtype: item.itemtype, count: item.count - 1 },
                    filter,
                    can_move_time_us,
                    can_dump_time_us: now + CONVEY_DUMP_PERIOD,
                },
            };
            match tile_lookup(mach_by_tile, tile_key(front)) {
                Some(front_mach) => {
                    let mut f: Machine = mach_data[front_mach.0];
                    if offer_item(&mut f, item.itemtype, now) {
                        mach_data[front_mach.0] = f;
                        mach_data[mach.0] = gone;
                        true
                    } else {
                        false
                    }
                },
                None => {
                    let ghost ids0 = feral_ids@;
                    let ghost data0 = feral_data@;
                    let ghost map0 = feral_by_tile@;
                    match ground_dump(filter, item, chances) {
                        GroundDump::Disassemble => {
                            let r1 = place_item(
                                item_types,
                                feral_ids,
                                feral_data,
                                feral_by_tile,
                                front,
                                ItemSlot { itemtype: ItemTypeId(ITEM_SCRAP), count: 1 },
                            );
                            let ghost idsm = feral_ids@;
                            let ghost datam = feral_data@;
                            let ghost mapm = feral_by_tile@;
                            if chances.bonus {
                                let r2 = place_item(
                                    item_types,
                                    feral_ids,
                                    feral_data,
                                    feral_by_tile,
                                    front,
                                    ItemSlot { itemtype: ItemTypeId(ITEM_ALIGNITE), count: 1 },
                                );
                                proof {
                                    assert(placed(
                                        item_types@,
                                        idsm,
                                        datam,
                                        mapm,
                                        feral_ids@,
                                        feral_data@,
                                        feral_by_tile@,
                                        front,
                                        one_of(ITEM_ALIGNITE),
                                        r2,
                                    ));
                                }
                            }
                            let ok: bool = r1.is_ok();
                            if ok {
                                mach_data[mach.0] = Machine {
                                    pos: m.pos,
                                    dir: m.dir,
                                    spec: MachineSpec::Conveyor {
                                        item: ItemSlot {
                                            itemtype: ItemTypeId(ITEM_BATTERY),
                                            count: item.count,
                                        },
                                        filter,
                                        can_move_time_us,
                                        can_dump_time_us: now + CONVEY_DUMP_PERIOD,
                                    },
                                };
                            }
                            proof {
                                assert(placed(
                                    item_types@,
                                    ids0,
                                    data0,
                                    map0,
                                    idsm,
                                    datam,
                                    mapm,
                                    front,
                                    one_of(ITEM_SCRAP),
                                    r1,
                                ));
                                assert(ground_dumped(
                                    item_types@,
                                    m,
                                    front,
                                    chances,
                                    ids0,
                                    data0,
                                    map0,
                                    feral_ids@,
                                    feral_data@,
                                    feral_by_tile@,
                                    ok,
                                ));
                            }
                            ok
                        },
                        GroundDump::Misalign => {
                            let r1 = place_item(
                                item_types,
                                feral_ids,
                                feral_data,
                                feral_by_tile,
                                front,
                                ItemSlot { itemtype: ItemTypeId(ITEM_OBFUSCATOR), count: 1 },
                            );
                            let ok: bool = r1.is_ok();
                            if ok {
                                mach_data[mach.0] = gone;
                            }
                            proof {
                                assert(placed(
                                    item_types@,
                                    ids0,
                                    data0,
                                    map0,
                                    feral_ids@,
                                    feral_data@,
                                    feral_by_tile@,
                                    front,
                                    one_of(ITEM_OBFUSCATOR),
                                    r1,
                                ));
                            }
                            ok
                        },
                        GroundDump::Plain => {
                            let r1 = place_item(
                                item_types,
                                feral_ids,
                                feral_data,
                                feral_by_tile,
                                front,
                                ItemSlot { itemtype: item.itemtype, count: 1 },
                            );
                            let ok: bool = r1.is_ok();
                            if ok {
                                mach_data[mach.0] = gone;
                            }
                            proof {
                                assert(placed(
                                    item_types@,
                                    ids0,
                                    data0,
                                    map0,
                                    feral_ids@,
                                    feral_data@,
                                    feral_by_tile@,
                                    front,
                                    one_of(item.itemtype.0),
                                    r1,
                                ));
                            }
                            ok
                        },
                    }
                },
            }
        },
        _ => false,
    }
}

/// Whether the conveyor dumps on the ground at `now`: a dump is due and no
/// machine stands on the tile in front of it.
pub open spec fn dumps_on_ground(
    m: Machine,
    now: u64,
    world_size: Tile,
    mach_by_tile: Map<(u8, u8), MachineId>,
) -> bool {
    match dump_target(m, now, world_size) {
        Some(front) => !mach_by_tile.contains_key(tile_key_of(front)),
        None => false,
    }
}

/// No chance fell.
pub open spec fn no_chances() -> Chances {
    Chances { disassemble: false, bonus: false, misalign: false }
}

/// How the chances fall for the three draws: a destroyed drone held alone
/// by a conveyor without a filter is taken apart if the first draw is 1, and
/// that gives a crystal too if the second is 1; a clump held alone by such a
/// conveyor is misaligned if the third is 1.
pub open spec fn chances_by(filter: bool, item: ItemSlot, apart: i32, bonus: i32, misalign: i32) -> Chances {
    let disassemble = !filter && item.count == 1 && item.itemtype.0 == ITEM_DEAD_DRONE && apart
        == 1;
    Chances {
        disassemble,
        bonus: disassemble && bonus == 1,
        misalign: !disassemble && !filter && item.count == 1 && item.itemtype.0 == ITEM_CLUMP
            && misalign == 1,
    }
}

/// How the chances fall for the three draws.
pub fn chances_from(filter: bool, item: ItemSlot, apart: i32, bonus: i32, misalign: i32) -> (r:
    Chances)
    ensures
        r == chances_by(filter, item, apart, bonus, misalign),
{
    let disassemble: bool = !filter && item.count == 1 && item.itemtype.0 == ITEM_DEAD_DRONE
        && apart == 1;
    Chances {
        disassemble,
        bonus: disassemble && bonus == 1,
        misalign: !disassemble && !filter && item.count == 1 && item.itemtype.0 == ITEM_CLUMP
            && misalign == 1,
    }
}

/// Draws the chances for one dump on the ground, each only where the rules
/// of `ground_dump_by` ask for it: a number below 20 for taking a destroyed
/// drone apart, then a number below 5 for the crystal, or a number below 200
/// for misaligning a clump. A draw that is not made counts as 0. The chances
/// are what `chances_by` gives for the numbers drawn.
pub fn draw_chances(filter: bool, item: ItemSlot) -> (r: Chances)
    ensures
        exists|apart: i32, bonus: i32, misalign: i32|
            {
                &&& 0 <= apart < 20
                &&& 0 <= bonus < 5
                &&& 0 <= misalign < 200
                &&& r == #[trigger] chances_by(filter, item, apart, bonus, misalign)
            },
        r.disassemble ==> !filter && item.count == 1 && item.itemtype.0 == ITEM_DEAD_DRONE,
        r.bonus ==> r.disassemble,
        r.misalign ==> !filter && item.count == 1 && item.itemtype.0 == ITEM_CLUMP,
{
    let alone: bool = !filter && item.count == 1;
    let apart: i32 = if alone && item.itemtype.0 == ITEM_DEAD_DRONE {
        gen_range(0, 20)
    } else {
        0
    };
    let bonus: i32 = if alone && item.itemtype.0 == ITEM_DEAD_DRONE && apart == 1 {
        gen_range(0, 5)
    } else {
        0
    };
    let misalign: i32 = if alone && item.itemtype.0 == ITEM_CLUMP {
        gen_range(0, 200)
    } else {
        0
    };
    let r: Chances = chances_from(filter, item, apart, bonus, misalign);
    proof {
        assert(r == chances_by(filter, item, apart, bonus, misalign));
    }
    r
}

/// Lets the conveyor `mach` dump its item as `conveyor_dump` does, with the
/// chances drawn at random where it dumps on the ground.
pub fn conveyor_dump_random(
    item_types: &Vec<ItemType>,
    world_size: Tile,
    now: u64,
    mach: MachineId,
    mach_data: &mut Vec<Machine>,
    mach_by_tile: &BTreeMap<(u8, u8), MachineId>,
    feral_ids: &mut IdReg<FeralItemId>,
    feral_data: &mut Vec<FeralItem>,
    feral_by_tile: &mut BTreeMap<(u8, u8), FeralItemId>,
) -> (r: bool)
    requires
        now <= TIME_MAX,
        item_types@.len() > ITEM_OBFUSCATOR,
        mach.0 < old(mach_data)@.len(),
        conveyor_item_valid(item_types@.len(), old(mach_data)@[mach.0 as int]),
        forall|k: (u8, u8)| #[trigger]
            mach_by_tile@.contains_key(k) ==> mach_by_tile@[k].0 < old(mach_data)@.len(),
        old(feral_ids).wf(),
        ferals_wf(item_types@.len(), old(feral_ids)@, old(feral_data)@, old(feral_by_tile)@),
        piles_can_grow(old(feral_ids)@),
    ensures
        final(feral_ids).wf(),
        ferals_wf(item_types@.len(), final(feral_ids)@, final(feral_data)@, final(feral_by_tile)@),
        final(mach_data)@.len() == old(mach_data)@.len(),
        old(feral_ids)@.len() <= final(feral_ids)@.len() <= old(feral_ids)@.len() * 4,
        exists|chances: Chances| #[trigger]
            dumped(
                item_types@,
                world_size,
                now,
                mach,
                mach_by_tile@,
                chances,
                old(mach_data)@,
                old(feral_ids)@,
                old(feral_data)@,
                old(feral_by_tile)@,
                final(mach_data)@,
                final(feral_ids)@,
                final(feral_data)@,
                final(feral_by_tile)@,
                r,
            ),
{
    let m: Machine = mach_data[mach.0];
    let mut chances: Chances = Chances { disassemble: false, bonus: false, misalign: false };
    if let Some(pos) = m.pos {
        if let MachineSpec::Conveyor { item, filter, can_move_time_us, can_dump_time_us } = m.spec {
            if item.count != 0 && can_dump_time_us < now {
                if let Some(front) = neighbour(pos, m.dir, false, world_size) {
                    if tile_lookup(mach_by_tile, tile_key(front)).is_none() {
                        chances = draw_chances(filter, item);
                    }
                }
            }
        }
    }
    conveyor_dump(
        item_types,
        world_size,
        now,
        mach,
        mach_data,
        mach_by_tile,
        feral_ids,
        feral_data,
        feral_by_tile,
        chances,
    )
}

/// What holds of a machine of the world: a turret is not overfull, and a
/// conveyor holds at most one item and is set to a type of the catalog, or
/// to none while it is empty.
pub open spec fn machine_ok(n_types: nat, m: Machine) -> bool {
    match m.spec {
        MachineSpec::Turret { ammo, can_fire_time_us } => ammo <= TURRET_AMMO_MAX,
        MachineSpec::Conveyor { item, filter, can_move_time_us, can_dump_time_us } => item.count
            <= 1 && (item.itemtype.0 < n_types || (item.itemtype.0 == usize::MAX && item.count
            == 0)),
        MachineSpec::Blank => true,
    }
}

/// The machines of the world are consistent: each active machine has its
/// data and is sound; a machine that stands on a tile is the one filed under
/// that tile; a machine that is not active stands on no tile; and each tile
/// of the index leads to an active machine that stands on it.
pub open spec fn machs_wf(
    n_types: nat,
    active: Seq<bool>,
    data: Seq<Machine>,
    by_tile: Map<(u8, u8), MachineId>,
) -> bool {
    &&& data.len() <= usize::MAX
    &&& forall|i: int| #[trigger]
        active_at(active, i) ==> {
            &&& i < data.len()
            &&& machine_ok(n_types, data[i])
            &&& data[i].pos is Some ==> {
                &&& by_tile.contains_key(tile_key_of(data[i].pos->0))
                &&& by_tile[tile_key_of(data[i].pos->0)] == MachineId(i as usize)
            }
        }
    &&& forall|i: int|
        0 <= i < data.len() && !active_at(active, i) ==> (#[trigger] data[i]).pos is None
    &&& forall|k: (u8, u8)| #[trigger]
        by_tile.contains_key(k) ==> {
            &&& active_at(active, by_tile[k].0 as int)
            &&& by_tile[k].0 < data.len()
            &&& data[by_tile[k].0 as int].pos is Some
            &&& tile_key_of(data[by_tile[k].0 as int].pos->0) == k
        }
}

/// Taking an item, dumping one or being offered one leaves a sound machine sound.
pub proof fn lemma_machine_steps_ok(n_types: nat, m: Machine, slots: Seq<Option<ItemSlot>>, now: u64, t: ItemTypeId, chances: Chances)
    requires
        machine_ok(n_types, m),
        n_types > ITEM_OBFUSCATOR,
    ensures
        turret_ready(m, now) ==> machine_ok(n_types, turret_after_shot(m, now)),
        m.spec is Conveyor && m.spec->Conveyor_item.count != 0 ==> machine_ok(
            n_types,
            conveyor_after_ground_dump(m, chances, now),
        ) && machine_ok(n_types, conveyor_after_dump(m, now)),
        machine_accepts(m, t) && t.0 < n_types ==> machine_ok(
            n_types,
            machine_after_accept(m, t, now),
        ),
        m.spec is Conveyor && (!takes_by_filter(m) ==> slots.len() > 0 && slots[0] is Some
            && slots[0]->0.itemtype.0 < n_types) ==> machine_ok(
            n_types,
            conveyor_after_take(m, slots, now),
        ),
{
}

/// The machines stay consistent where one machine changed but still
/// stands where it stood, and is sound.
pub proof fn lemma_machs_changed(
    n_types: nat,
    active: Seq<bool>,
    data0: Seq<Machine>,
    data1: Seq<Machine>,
    by_tile: Map<(u8, u8), MachineId>,
    changed: int,
)
    requires
        machs_wf(n_types, active, data0, by_tile),
        0 <= changed < data0.len(),
        data1.len() == data0.len(),
        forall|i: int| 0 <= i < data0.len() && i != changed ==> data1[i] == data0[i],
        data1[changed].pos == data0[changed].pos,
        machine_ok(n_types, data1[changed]),
    ensures
        machs_wf(n_types, active, data1, by_tile),
{
    assert forall|i: int| #[trigger] active_at(active, i) implies {
        &&& i < data1.len()
        &&& machine_ok(n_types, data1[i])
        &&& data1[i].pos is Some ==> {
            &&& by_tile.contains_key(tile_key_of(data1[i].pos->0))
            &&& by_tile[tile_key_of(data1[i].pos->0)] == MachineId(i as usize)
        }
    } by {
        if i != changed {
            assert(data1[i] == data0[i]);
        }
    }
    assert forall|k: (u8, u8)| #[trigger] by_tile.contains_key(k) implies {
        &&& active_at(active, by_tile[k].0 as int)
        &&& by_tile[k].0 < data1.len()
        &&& data1[by_tile[k].0 as int].pos is Some
        &&& tile_key_of(data1[by_tile[k].0 as int].pos->0) == k
    } by {
        let v = by_tile[k].0 as int;
        if v != changed {
            assert(data1[v] == data0[v]);
        }
    }
    assert forall|i: int| 0 <= i < data1.len() && !active_at(active, i) implies (
    #[trigger] data1[i]).pos is None by {
        if i != changed {
            assert(data1[i] == data0[i]);
        } else {
            assert(data0[i].pos is None);
        }
    }
}

/// A dump leaves the machines consistent.
pub proof fn lemma_dumped_machs_wf(
    item_types: Seq<ItemType>,
    world_size: Tile,
    now: u64,
    mach: MachineId,
    mach_by_tile: Map<(u8, u8), MachineId>,
    chances: Chances,
    active: Seq<bool>,
    machs0: Seq<Machine>,
    ids0: Seq<bool>,
    data0: Seq<FeralItem>,
    map0: Map<(u8, u8), FeralItemId>,
    machs1: Seq<Machine>,
    ids1: Seq<bool>,
    data1: Seq<FeralItem>,
    map1: Map<(u8, u8), FeralItemId>,
    r: bool,
)
    requires
        item_types.len() > ITEM_OBFUSCATOR,
        machs_wf(item_types.len(), active, machs0, mach_by_tile),
        active_at(active, mach.0 as int),
        dumped(
            item_types,
            world_size,
            now,
            mach,
            mach_by_tile,
            chances,
            machs0,
            ids0,
            data0,
            map0,
            machs1,
            ids1,
            data1,
            map1,
            r,
        ),
    ensures
        machs_wf(item_types.len(), active, machs1, mach_by_tile),
        machs1.len() == machs0.len(),
{
    let n_types = item_types.len();
    let m = machs0[mach.0 as int];
    if r {
        let front = dump_target(m, now, world_size)->0;
        let t = m.spec->Conveyor_item.itemtype;
        lemma_machine_steps_ok(n_types, m, Seq::empty(), now, t, chances);
        if mach_by_tile.contains_key(tile_key_of(front)) {
            let fm = mach_by_tile[tile_key_of(front)].0 as int;
            assert(active_at(active, fm));
            lemma_machine_steps_ok(n_types, machs0[fm], Seq::empty(), now, t, chances);
            let mid = machs0.update(fm, machine_after_accept(machs0[fm], t, now));
            lemma_machs_changed(n_types, active, machs0, mid, mach_by_tile, fm);
            lemma_machs_changed(n_types, active, mid, machs1, mach_by_tile, mach.0 as int);
        } else {
            lemma_machs_changed(n_types, active, machs0, machs1, mach_by_tile, mach.0 as int);
        }
    }
}

/// A dump moves no machine, turns none, and changes only machines that
/// stand on a tile; it makes no turret of a machine that was none, and none
/// of a turret that was one.
pub proof fn lemma_dumped_frame(
    item_types: Seq<ItemType>,
    world_size: Tile,
    now: u64,
    mach: MachineId,
    mach_by_tile: Map<(u8, u8), MachineId>,
    chances: Chances,
    machs0: Seq<Machine>,
    ids0: Seq<bool>,
    data0: Seq<FeralItem>,
    map0: Map<(u8, u8), FeralItemId>,
    machs1: Seq<Machine>,
    ids1: Seq<bool>,
    data1: Seq<FeralItem>,
    map1: Map<(u8, u8), FeralItemId>,
    r: bool,
)
    requires
        0 <= mach.0 < machs0.len(),
        forall|k: (u8, u8)| #[trigger]
            mach_by_tile.contains_key(k) ==> mach_by_tile[k].0 < machs0.len()
                && machs0[mach_by_tile[k].0 as int].pos is Some,
        dumped(
            item_types,
            world_size,
            now,
            mach,
            mach_by_tile,
            chances,
            machs0,
            ids0,
            data0,
            map0,
            machs1,
            ids1,
            data1,
            map1,
            r,
        ),
    ensures
        machs1.len() == machs0.len(),
        forall|j: int|
            0 <= j < machs0.len() ==> {
                &&& (#[trigger] machs1[j]).pos == machs0[j].pos
                &&& machs1[j].dir == machs0[j].dir
                &&& machs0[j].pos is None ==> machs1[j] == machs0[j]
                &&& machs1[j].spec is Turret <==> machs0[j].spec is Turret
            },
{
    let m = machs0[mach.0 as int];
    if r {
        let front = dump_target(m, now, world_size)->0;
        if mach_by_tile.contains_key(tile_key_of(front)) {
            let fm = mach_by_tile[tile_key_of(front)].0 as int;
            assert(machs0[fm].pos is Some);
        }
    }
}

/// The part of the world that the machines change when they act: the
/// occupancy of the projectile registry, the machines, the piles, and the
/// shots fired so far.
pub struct Scene {
    pub bullets: Seq<bool>,
    pub machs: Seq<Machine>,
    pub piles: Seq<bool>,
    pub pile_data: Seq<FeralItem>,
    pub pile_by_tile: Map<(u8, u8), FeralItemId>,
    pub shots: Seq<(MachineId, BulletId)>,
}

/// The turret with the handle `i` made `s1` of the scene `s0`: it saw the
/// box `sight`, stepped as `turret_stepped` says and became `m1`, and its
/// shot, if it shot, was added to the shots. The piles stayed.
pub open spec fn turret_acted(
    now: u64,
    index: Seq<Entry>,
    ys: Seq<i64>,
    i: int,
    s0: Scene,
    s1: Scene,
    sight: (i64, i64, i64, i64),
    m1: Machine,
    shot: Option<BulletId>,
) -> bool {
    &&& turret_stepped(s0.machs[i], now, s0.bullets, index, ys, sight, m1, s1.bullets, shot)
    &&& s1.machs == s0.machs.update(i, m1)
    &&& s1.shots == if shot is Some {
        s0.shots.push((MachineId(i as usize), shot->0))
    } else {
        s0.shots
    }
    &&& s1.piles == s0.piles
    &&& s1.pile_data == s0.pile_data
    &&& s1.pile_by_tile == s0.pile_by_tile
}

/// The conveyor with the handle `i` made `s1` of the scene `s0` by a take,
/// as `taken` says, and became `m1`. Projectiles and shots stayed.
pub open spec fn take_acted(
    world_size: Tile,
    now: u64,
    i: int,
    s0: Scene,
    s1: Scene,
    m1: Machine,
) -> bool {
    &&& taken(
        world_size,
        now,
        s0.machs[i],
        m1,
        s0.piles,
        s0.pile_data,
        s0.pile_by_tile,
        s1.piles,
        s1.pile_data,
        s1.pile_by_tile,
    )
    &&& s1.machs == s0.machs.update(i, m1)
    &&& s1.bullets == s0.bullets
    &&& s1.shots == s0.shots
}

/// The conveyor with the handle `i` made `s1` of the scene `s0` by a dump,
/// as `dumped` says for the chances `chances`. Projectiles and shots stayed.
pub open spec fn dump_acted(
    item_types: Seq<ItemType>,
    world_size: Tile,
    now: u64,
    mach_by_tile: Map<(u8, u8), MachineId>,
    i: int,
    s0: Scene,
    s1: Scene,
    chances: Chances,
    r: bool,
) -> bool {
    &&& dumped(
        item_types,
        world_size,
        now,
        MachineId(i as usize),
        mach_by_tile,
        chances,
        s0.machs,
        s0.piles,
        s0.pile_data,
        s0.pile_by_tile,
        s1.machs,
        s1.piles,
        s1.pile_data,
        s1.pile_by_tile,
        r,
    )
    &&& s1.bullets == s0.bullets
    &&& s1.shots == s0.shots
}

/// What the machine with the handle `i` does to the scene when it acts at
/// `now`. A machine that is not active or stands on no tile does nothing. A
/// turret steps as `turret_acted` says, with a box that `turret_box` gave
/// for its tile and direction. A conveyor that holds nothing and whose take
/// cooldown has passed takes as `take_acted` says; any other conveyor dumps
/// as `dump_acted` says, for some fall of the chances, or does nothing where
/// the registry of piles has no room to grow.
pub open spec fn machine_acted<F: Fn(Tile, Dir) -> (i64, i64, i64, i64)>(
    turret_box: &F,
    item_types: Seq<ItemType>,
    world_size: Tile,
    now: u64,
    index: Seq<Entry>,
    ys: Seq<i64>,
    mach_ids: Seq<bool>,
    mach_by_tile: Map<(u8, u8), MachineId>,
    i: int,
    s0: Scene,
    s1: Scene,
) -> bool {
    let m = s0.machs[i];
    if !(active_at(mach_ids, i) && m.pos is Some) {
        s1 == s0
    } else {
        match m.spec {
            MachineSpec::Turret { ammo, can_fire_time_us } => exists|
                sight: (i64, i64, i64, i64),
                m1: Machine,
                shot: Option<BulletId>,
            |
                {
                    &&& call_ensures(turret_box, (m.pos->0, m.dir), sight)
                    &&& #[trigger] turret_acted(now, index, ys, i, s0, s1, sight, m1, shot)
                },
            MachineSpec::Conveyor { item, filter, can_move_time_us, can_dump_time_us } => if item.count
                == 0 && can_move_time_us < now {
                exists|m1: Machine| #[trigger] take_acted(world_size, now, i, s0, s1, m1)
            } else if piles_can_grow(s0.piles) {
                exists|chances: Chances, r: bool| #[trigger]
                    dump_acted(item_types, world_size, now, mach_by_tile, i, s0, s1, chances, r)
            } else {
                s1 == s0
            },
            MachineSpec::Blank => s1 == s0,
        }
    }
}

/// The scenes are the scene before any machine acted and then the scene
/// after each handle in turn: scene `i + 1` is what the machine with the
/// handle `i` made of scene `i`.
pub open spec fn machines_acted<F: Fn(Tile, Dir) -> (i64, i64, i64, i64)>(
    turret_box: &F,
    item_types: Seq<ItemType>,
    world_size: Tile,
    now: u64,
    index: Seq<Entry>,
    ys: Seq<i64>,
    mach_ids: Seq<bool>,
    mach_by_tile: Map<(u8, u8), MachineId>,
    scenes: Seq<Scene>,
) -> bool {
    &&& scenes.len() == mach_ids.len() + 1
    &&& forall|i: int|
        0 <= i < mach_ids.len() ==> machine_acted(
            turret_box,
            item_types,
            world_size,
            now,
            index,
            ys,
            mach_ids,
            mach_by_tile,
            i,
            #[trigger] scenes[i],
            scenes[i + 1],
        )
}

} // verus!
