//! Item piles: stacking, taking, compaction and crafting.

use crate::game::FeralItem;
use crate::game::FeralItemId;
use crate::game::ItemSlot;
use crate::game::ItemType;
use crate::game::ItemTypeId;
use crate::game::Tile;
use crate::game::Burger;
use crate::game::ITEM_ALIGNITE;
use crate::game::ITEM_BATTERY;
use crate::game::ITEM_BULLET;
use crate::game::ITEM_CLUMP;
use crate::game::ITEM_DEAD_DRONE;
use crate::game::ITEM_GUNPOWDER;
use crate::game::ITEM_OBFUSCATOR;
use crate::game::ITEM_SCRAP;
use crate::game::tile_key;
use crate::game::tile_key_of;
use crate::lgrn::is_next_slot;
use crate::lgrn::with_next_slot;
use crate::lgrn::IdReg;
use std::collections::BTreeMap;
use vstd::prelude::*;
use crate::tiles::tile_file;
use crate::tiles::tile_lookup;
use crate::tiles::tile_unfile;

verus! {

/// How many items of type `t` the slots hold in all.
pub open spec fn total_of(slots: Seq<Option<ItemSlot>>, t: ItemTypeId) -> nat
    decreases slots.len(),
{
    if slots.len() == 0 {
        0
    } else {
        total_of(slots.drop_last(), t) + held_of(slots.last(), t)
    }
}

/// How many items of type `t` one slot holds.
pub open spec fn held_of(slot: Option<ItemSlot>, t: ItemTypeId) -> nat {
    match slot {
        Some(s) => if s.itemtype == t {
            s.count as nat
        } else {
            0
        },
        None => 0,
    }
}

/// Whether some slot is occupied by type `t`, whatever its count.
pub open spec fn has_type(slots: Seq<Option<ItemSlot>>, t: ItemTypeId) -> bool {
    exists|i: int| 0 <= i < slots.len() && #[trigger] is_of(slots[i], t)
}

/// Whether a slot is occupied by type `t`.
pub open spec fn is_of(slot: Option<ItemSlot>, t: ItemTypeId) -> bool {
    slot is Some && slot->0.itemtype == t
}

/// The occupied slots, in order.
pub open spec fn somes(slots: Seq<Option<ItemSlot>>) -> Seq<Option<ItemSlot>>
    decreases slots.len(),
{
    if slots.len() == 0 {
        slots
    } else if slots.last() is Some {
        somes(slots.drop_last()).push(slots.last())
    } else {
        somes(slots.drop_last())
    }
}

/// The slots with the occupied ones moved to the front, their order kept.
pub open spec fn compacted(slots: Seq<Option<ItemSlot>>) -> Seq<Option<ItemSlot>> {
    somes(slots) + Seq::new((slots.len() - somes(slots).len()) as nat, |i: int| None)
}

/// No empty slot comes before an occupied one.
pub open spec fn is_packed(slots: Seq<Option<ItemSlot>>) -> bool {
    forall|i: int, j: int| 0 <= i < j < slots.len() && slots[i] is None ==> slots[j] is None
}

/// One slot after up to `amount` items of type `t` were taken from it. A slot
/// of that type left with nothing becomes empty.
pub open spec fn drain_one(slot: Option<ItemSlot>, t: ItemTypeId, amount: nat) -> Option<ItemSlot> {
    match slot {
        Some(s) => if s.itemtype == t {
            if s.count <= amount {
                None
            } else {
                Some(ItemSlot { itemtype: t, count: (s.count - amount) as u32 })
            }
        } else {
            slot
        },
        None => None,
    }
}

/// The slots after up to `amount` items of type `t` were taken, front slots
/// first: slot `i` gives what the slots before it could not.
pub open spec fn drained(slots: Seq<Option<ItemSlot>>, t: ItemTypeId, amount: nat) -> Seq<
    Option<ItemSlot>,
> {
    Seq::new(
        slots.len(),
        |i: int| drain_one(slots[i], t, still_wanted(amount, total_of(slots.take(i), t))),
    )
}

/// What is still wanted of `amount` once `got` was found.
pub open spec fn still_wanted(amount: nat, got: nat) -> nat {
    if got >= amount {
        0
    } else {
        (amount - got) as nat
    }
}

/// The occupied slots are no more than the slots, and each is occupied.
pub proof fn lemma_somes_bounds(slots: Seq<Option<ItemSlot>>)
    ensures
        somes(slots).len() <= slots.len(),
        forall|i: int| 0 <= i < somes(slots).len() ==> (#[trigger] somes(slots)[i]) is Some,
    decreases slots.len(),
{
    if slots.len() > 0 {
        lemma_somes_bounds(slots.drop_last());
    }
}

/// Compaction leaves no empty slot before an occupied one, keeps the number of
/// slots, and changes no total.
pub proof fn lemma_compacted_packed(slots: Seq<Option<ItemSlot>>)
    ensures
        is_packed(compacted(slots)),
        compacted(slots).len() == slots.len(),
{
    lemma_somes_bounds(slots);
}

proof fn lemma_total_take_step(slots: Seq<Option<ItemSlot>>, t: ItemTypeId, i: int)
    requires
        0 <= i < slots.len(),
    ensures
        total_of(slots.take(i + 1), t) == total_of(slots.take(i), t) + held_of(slots[i], t),
{
    assert(slots.take(i + 1).drop_last() =~= slots.take(i));
}

proof fn lemma_somes_take_step(slots: Seq<Option<ItemSlot>>, i: int)
    requires
        0 <= i < slots.len(),
    ensures
        somes(slots.take(i + 1)) == if slots[i] is Some {
            somes(slots.take(i)).push(slots[i])
        } else {
            somes(slots.take(i))
        },
{
    assert(slots.take(i + 1).drop_last() =~= slots.take(i));
}

/// Whether the slots hold at least `amount` items of type `itype`, in at least
/// one slot of that type.
pub fn slots_contains(slots: &[Option<ItemSlot>], itype: ItemTypeId, amount: u32) -> (r: bool)
    ensures
        r == (has_type(slots@, itype) && total_of(slots@, itype) >= amount),
{
    let mut left: u32 = amount;
    let n: usize = slots.len();
    let mut i: usize = 0;
    while i < n
        invariant
            i <= n,
            n == slots@.len(),
            left as nat == still_wanted(amount as nat, total_of(slots@.take(i as int), itype)),
            forall|k: int| 0 <= k < i && #[trigger] is_of(slots@[k], itype) ==> left > 0,
        decreases n - i,
    {
        proof {
            lemma_total_take_step(slots@, itype, i as int);
        }
        if let Some(held) = &slots[i] {
            if held.itemtype == itype {
                left = left.saturating_sub(held.count);
                if left == 0 {
                    proof {
                        lemma_total_mono(slots@, itype, i as int + 1);
                        assert(is_of(slots@[i as int], itype));
                    }
                    return true;
                }
            }
        }
        i += 1;
    }
    proof {
        assert(slots@.take(n as int) =~= slots@);
    }
    return false;
}

/// A prefix of the slots holds no more than all of them.
pub proof fn lemma_total_mono(slots: Seq<Option<ItemSlot>>, t: ItemTypeId, i: int)
    requires
        0 <= i <= slots.len(),
    ensures
        total_of(slots.take(i), t) <= total_of(slots, t),
    decreases slots.len() - i,
{
    if i < slots.len() {
        lemma_total_take_step(slots, t, i);
        lemma_total_mono(slots, t, i + 1);
    } else {
        assert(slots.take(i) =~= slots);
    }
}

/// Moves the occupied slots to the front, keeping their order.
pub fn compact_slots(slots: &mut Burger)
    ensures
        final(slots)@ == compacted(old(slots)@),
        is_packed(final(slots)@),
{
    let mut k: usize = 0;
    let mut i: usize = 0;
    while i < 4
        invariant
            k <= i <= 4,
            slots@.len() == 4,
            old(slots)@.len() == 4,
            slots@.take(k as int) == somes(old(slots)@.take(i as int)),
            forall|j: int| k <= j < i ==> slots@[j] is None,
            forall|j: int| i <= j < 4 ==> slots@[j] == old(slots)@[j],
        decreases 4 - i,
    {
        proof {
            lemma_somes_take_step(old(slots)@, i as int);
        }
        let ghost before = slots@;
        let v: Option<ItemSlot> = slots[i];
        if v.is_some() {
            if i != k {
                slots[k] = v;
                slots[i] = None;
            }
            proof {
                assert(slots@.take(k as int + 1) =~= before.take(k as int).push(v));
            }
            k += 1;
        } else {
            proof {
                assert(slots@.take(k as int) =~= before.take(k as int));
            }
        }
        i += 1;
    }
    proof {
        assert(old(slots)@.take(4) =~= old(slots)@);
        assert(slots@ =~= compacted(old(slots)@));
        lemma_compacted_packed(old(slots)@);
    }
}

/// Takes up to `amount` items of one type out of the slots, front slots
/// first, and closes the gaps. Returns how many were taken.
pub fn take_items(slots: &mut Burger, itemtype: ItemTypeId, amount: u32) -> (r: u32)
    ensures
        r as nat == amount - still_wanted(amount as nat, total_of(old(slots)@, itemtype)),
        r <= amount,
        r <= total_of(old(slots)@, itemtype),
        final(slots)@ == compacted(drained(old(slots)@, itemtype, amount as nat)),
        is_packed(final(slots)@),
{
    let mut remaining: u32 = amount;
    let mut i: usize = 0;
    while i < 4
        invariant
            i <= 4,
            slots@.len() == 4,
            old(slots)@.len() == 4,
            remaining as nat == still_wanted(
                amount as nat,
                total_of(old(slots)@.take(i as int), itemtype),
            ),
            forall|j: int|
                0 <= j < i ==> slots@[j] == drained(old(slots)@, itemtype, amount as nat)[j],
            forall|j: int| i <= j < 4 ==> slots@[j] == old(slots)@[j],
        decreases 4 - i,
    {
        proof {
            lemma_total_take_step(old(slots)@, itemtype, i as int);
        }
        if let Some(draft_slot) = slots[i] {
            if draft_slot.itemtype == itemtype {
                let consume: u32 = if draft_slot.count < remaining {
                    draft_slot.count
                } else {
                    remaining
                };
                remaining -= consume;
                let left: u32 = draft_slot.count - consume;
                if left == 0 {
                    slots[i] = None;
                } else {
                    slots[i] = Some(ItemSlot { itemtype: draft_slot.itemtype, count: left });
                }
            }
        }
        i += 1;
    }
    proof {
        assert(old(slots)@.take(4) =~= old(slots)@);
        assert(slots@ =~= drained(old(slots)@, itemtype, amount as nat));
    }
    compact_slots(slots);
    amount - remaining
}

/// How many more items a stack of `count` takes under the limit `stackable`.
pub open spec fn room(stackable: u32, count: u32) -> nat {
    if count >= stackable {
        0
    } else {
        (stackable - count) as nat
    }
}

/// The slot that stands for nothing.
pub open spec fn no_slot() -> ItemSlot {
    ItemSlot { itemtype: ItemTypeId(usize::MAX), count: 0 }
}

/// Stacking `o` into the slots, front slots first: each slot of the same type
/// takes what its stack limit leaves room for, and the first empty slot takes
/// all that is left, whatever the limit. Gives the slots afterwards and what
/// could not be placed; that is `no_slot()` once an empty slot took the rest.
pub open spec fn stack_into(slots: Seq<Option<ItemSlot>>, stackable: u32, o: ItemSlot) -> (
    Seq<Option<ItemSlot>>,
    ItemSlot,
)
    decreases slots.len(),
{
    if slots.len() == 0 || o.count == 0 {
        (slots, o)
    } else {
        match slots[0] {
            None => (slots.update(0, Some(o)), no_slot()),
            Some(s) => {
                let moved = if s.itemtype == o.itemtype {
                    if room(stackable, s.count) < o.count {
                        room(stackable, s.count)
                    } else {
                        o.count as nat
                    }
                } else {
                    0
                };
                let rest = stack_into(
                    slots.skip(1),
                    stackable,
                    ItemSlot { itemtype: o.itemtype, count: (o.count - moved) as u32 },
                );
                (
                    seq![Some(ItemSlot { itemtype: s.itemtype, count: (s.count + moved) as u32 })]
                        + rest.0,
                    rest.1,
                )
            },
        }
    }
}

/// Stacking keeps the number of slots.
pub proof fn lemma_stack_into_len(slots: Seq<Option<ItemSlot>>, stackable: u32, o: ItemSlot)
    ensures
        stack_into(slots, stackable, o).0.len() == slots.len(),
    decreases slots.len(),
{
    if slots.len() > 0 && o.count > 0 && slots[0] is Some {
        let s = slots[0]->0;
        let moved = if s.itemtype == o.itemtype {
            if room(stackable, s.count) < o.count {
                room(stackable, s.count)
            } else {
                o.count as nat
            }
        } else {
            0
        };
        lemma_stack_into_len(
            slots.skip(1),
            stackable,
            ItemSlot { itemtype: o.itemtype, count: (o.count - moved) as u32 },
        );
    }
}

/// Stacks `slot` into the slots and returns what could not be placed.
pub fn stack_slots(slots: &mut Burger, stackable: u32, slot: ItemSlot) -> (left: ItemSlot)
    ensures
        (final(slots)@, left) == stack_into(old(slots)@, stackable, slot),
{
    let mut rem: ItemSlot = slot;
    let mut i: usize = 0;
    proof {
        assert(slots@.skip(0) =~= slots@);
        let whole = stack_into(slots@, stackable, slot);
        assert(slots@.take(0) + whole.0 =~= whole.0);
    }
    while i < 4 && rem.count != 0
        invariant
            i <= 4,
            slots@.len() == 4,
            old(slots)@.len() == 4,
            forall|j: int| i <= j < 4 ==> slots@[j] == old(slots)@[j],
            stack_into(old(slots)@, stackable, slot) == (
                slots@.take(i as int) + stack_into(old(slots)@.skip(i as int), stackable, rem).0,
                stack_into(old(slots)@.skip(i as int), stackable, rem).1,
            ),
        decreases 4 - i,
    {
        let ghost tail = old(slots)@.skip(i as int);
        let ghost before = slots@;
        proof {
            assert(tail[0] == slots@[i as int]);
            assert(tail.skip(1) =~= old(slots)@.skip(i as int + 1));
        }
        match slots[i] {
            None => {
                slots[i] = Some(rem);
                proof {
                    assert(slots@ =~= before.take(i as int) + tail.update(0, Some(rem)));
                }
                return ItemSlot { itemtype: ItemTypeId(usize::MAX), count: 0 };
            },
            Some(held) => {
                if held.itemtype == rem.itemtype {
                    let space: u32 = stackable.saturating_sub(held.count);
                    let transfer: u32 = if space < rem.count {
                        space
                    } else {
                        rem.count
                    };
                    slots[i] = Some(
                        ItemSlot { itemtype: held.itemtype, count: held.count + transfer },
                    );
                    rem = ItemSlot { itemtype: rem.itemtype, count: rem.count - transfer };
                }
                proof {
                    let next = stack_into(old(slots)@.skip(i as int + 1), stackable, rem);
                    assert(slots@.take(i as int + 1) + next.0 =~= before.take(i as int) + (
                        seq![slots@[i as int]] + next.0));
                }
            },
        }
        i += 1;
    }
    proof {
        let tail = old(slots)@.skip(i as int);
        assert(slots@ =~= slots@.take(i as int) + tail);
    }
    rem
}

/// Every slot is empty.
pub open spec fn all_empty(slots: Seq<Option<ItemSlot>>) -> bool {
    forall|j: int| 0 <= j < slots.len() ==> slots[j] is None
}

/// Every occupied slot holds at least one item of a type of the catalog.
pub open spec fn slots_valid(n_types: nat, slots: Seq<Option<ItemSlot>>) -> bool {
    forall|j: int|
        0 <= j < slots.len() && slots[j] is Some ==> (#[trigger] slots[j])->0.count > 0
            && slots[j]->0.itemtype.0 < n_types
}

/// What holds of the slots of any pile: its occupied slots come first, and
/// each of them is valid.
pub open spec fn pile_sound(n_types: nat, slots: Seq<Option<ItemSlot>>) -> bool {
    &&& slots.len() == 4
    &&& is_packed(slots)
    &&& slots_valid(n_types, slots)
}

/// What holds of the slots of a pile that lies in the world: it is sound and
/// not empty.
pub open spec fn pile_ok(n_types: nat, slots: Seq<Option<ItemSlot>>) -> bool {
    &&& pile_sound(n_types, slots)
    &&& slots[0] is Some
}

/// Whether slot `i` of a registry's occupancy is an active handle.
pub open spec fn active_at(active: Seq<bool>, i: int) -> bool {
    0 <= i < active.len() && active[i]
}

/// The piles of the world are consistent, but that the active pile `loose`
/// may have been emptied and not yet removed: each active pile has its data, is sound,
/// is not empty unless it is `loose`, and is the one filed under its tile; a
/// pile that is not active is empty; and each tile of the index leads to an
/// active pile on it.
pub open spec fn ferals_wf_but(
    n_types: nat,
    active: Seq<bool>,
    data: Seq<FeralItem>,
    by_tile: Map<(u8, u8), FeralItemId>,
    loose: int,
) -> bool {
    &&& data.len() <= usize::MAX
    &&& loose >= 0 ==> active_at(active, loose)
    &&& forall|i: int| #[trigger]
        active_at(active, i) ==> {
            &&& i < data.len()
            &&& pile_sound(n_types, data[i].slots@)
            &&& i != loose ==> data[i].slots@[0] is Some
            &&& by_tile.contains_key(tile_key_of(data[i].pos))
            &&& by_tile[tile_key_of(data[i].pos)] == FeralItemId(i as usize)
        }
    &&& forall|i: int|
        0 <= i < data.len() && !active_at(active, i) ==> all_empty((#[trigger] data[i]).slots@)
    &&& forall|k: (u8, u8)| #[trigger]
        by_tile.contains_key(k) ==> {
            &&& active_at(active, by_tile[k].0 as int)
            &&& by_tile[k].0 < data.len()
            &&& tile_key_of(data[by_tile[k].0 as int].pos) == k
        }
}

/// The piles of the world are consistent, and none of them is empty.
pub open spec fn ferals_wf(
    n_types: nat,
    active: Seq<bool>,
    data: Seq<FeralItem>,
    by_tile: Map<(u8, u8), FeralItemId>,
) -> bool {
    ferals_wf_but(n_types, active, data, by_tile, -1)
}

/// Stacking into a proper pile, or into valid packed slots, gives valid
/// packed slots whose first slot is occupied.
pub proof fn lemma_stack_into_valid(
    n_types: nat,
    slots: Seq<Option<ItemSlot>>,
    stackable: u32,
    o: ItemSlot,
)
    requires
        is_packed(slots),
        slots_valid(n_types, slots),
        o.count > 0,
        o.itemtype.0 < n_types,
    ensures
        is_packed(stack_into(slots, stackable, o).0),
        slots_valid(n_types, stack_into(slots, stackable, o).0),
        stack_into(slots, stackable, o).0.len() == slots.len(),
        slots.len() > 0 ==> stack_into(slots, stackable, o).0[0] is Some,
        forall|j: int|
            0 <= j < slots.len() && slots[j] is Some ==> stack_into(slots, stackable, o).0[j]
                is Some,
    decreases slots.len(),
{
    lemma_stack_into_len(slots, stackable, o);
    if slots.len() > 0 {
        let res = stack_into(slots, stackable, o).0;
        match slots[0] {
            None => {
                assert forall|j: int| 0 < j < slots.len() implies slots[j] is None by {}
            },
            Some(s) => {
                let moved = if s.itemtype == o.itemtype {
                    if room(stackable, s.count) < o.count {
                        room(stackable, s.count)
                    } else {
                        o.count as nat
                    }
                } else {
                    0
                };
                let o2 = ItemSlot { itemtype: o.itemtype, count: (o.count - moved) as u32 };
                let tail = slots.skip(1);
                assert(is_packed(tail)) by {
                    assert forall|i: int, j: int|
                        0 <= i < j < tail.len() && tail[i] is None implies tail[j] is None by {
                        assert(slots[i + 1] is None);
                    }
                }
                assert(slots_valid(n_types, tail)) by {
                    assert forall|j: int| 0 <= j < tail.len() && tail[j] is Some implies (
                    #[trigger] tail[j])->0.count > 0 && tail[j]->0.itemtype.0 < n_types by {
                        assert(slots[j + 1] is Some);
                    }
                }
                lemma_stack_into_len(tail, stackable, o2);
                if o2.count > 0 {
                    lemma_stack_into_valid(n_types, tail, stackable, o2);
                }
                let rest = stack_into(tail, stackable, o2).0;
                assert(res =~= seq![
                    Some(ItemSlot { itemtype: s.itemtype, count: (s.count + moved) as u32 }),
                ] + rest);
                assert forall|j: int| 0 < j < res.len() implies res[j] == rest[j - 1] by {}
                assert forall|j: int| 0 <= j < slots.len() && slots[j] is Some implies res[j]
                    is Some by {
                    if j > 0 {
                        assert(tail[j - 1] is Some);
                    }
                }
                assert(is_packed(res)) by {
                    assert forall|i: int, j: int|
                        0 <= i < j < res.len() && res[i] is None implies res[j] is None by {
                        assert(rest[i - 1] is None);
                    }
                }
                assert(slots_valid(n_types, res)) by {
                    assert forall|j: int| 0 <= j < res.len() && res[j] is Some implies (
                    #[trigger] res[j])->0.count > 0 && res[j]->0.itemtype.0 < n_types by {
                        if j > 0 {
                            assert(rest[j - 1] is Some);
                        } else {
                            assert(slots[0] is Some);
                        }
                    }
                }
            },
        }
    }
}

/// What placing `slot` on the tile `pos` does to the piles, and what it
/// returns. On a tile with a pile the items are stacked into it and nothing
/// else changes; the result is the pile's handle, or, where not all fitted,
/// the handle with what is left and whether anything was placed. On a tile
/// without a pile the next handle of the registry is taken, the pile data
/// grows with the registry, and the new pile holds the items in its first
/// slot.
pub open spec fn placed(
    item_types: Seq<ItemType>,
    ids0: Seq<bool>,
    data0: Seq<FeralItem>,
    map0: Map<(u8, u8), FeralItemId>,
    ids1: Seq<bool>,
    data1: Seq<FeralItem>,
    map1: Map<(u8, u8), FeralItemId>,
    pos: Tile,
    slot: ItemSlot,
    r: Result<FeralItemId, (FeralItemId, ItemSlot, bool)>,
) -> bool {
    if map0.contains_key(tile_key_of(pos)) {
        let feral = map0[tile_key_of(pos)];
        let st = stack_into(
            data0[feral.0 as int].slots@,
            item_types[slot.itemtype.0 as int].stackable,
            slot,
        );
        &&& ids1 == ids0
        &&& map1 == map0
        &&& data1.len() == data0.len()
        &&& forall|i: int| 0 <= i < data0.len() && i != feral.0 ==> data1[i] == data0[i]
        &&& data1[feral.0 as int].pos == data0[feral.0 as int].pos
        &&& data1[feral.0 as int].slots@ == st.0
        &&& r == if st.1.count == 0 {
            Ok::<FeralItemId, (FeralItemId, ItemSlot, bool)>(feral)
        } else {
            Err((feral, st.1, st.1.count != slot.count))
        }
    } else {
        &&& r is Ok
        &&& is_next_slot(ids0, r->Ok_0.0 as int)
        &&& ids1 == with_next_slot(ids0, r->Ok_0.0 as int)
        &&& map1 == map0.insert(tile_key_of(pos), r->Ok_0)
        &&& data1.len() == ids1.len()
        &&& forall|i: int|
            0 <= i < data1.len() && i < data0.len() && i != r->Ok_0.0 ==> data1[i] == data0[i]
        &&& forall|i: int|
            data0.len() <= i < data1.len() && i != r->Ok_0.0 ==> all_empty(
                (#[trigger] data1[i]).slots@,
            )
        &&& data1[r->Ok_0.0 as int].pos == pos
        &&& data1[r->Ok_0.0 as int].slots@ == seq![Some(slot), None, None, None]
    }
}

/// Puts `slot` on the tile `pos`. On a tile without a pile a new pile is made
/// with the items in its first slot. On a tile with a pile the items are
/// stacked into it; what does not fit comes back as the error, with the
/// pile's handle and whether anything was placed at all.
pub fn place_item(
    item_types: &Vec<ItemType>,
    feral_ids: &mut IdReg<FeralItemId>,
    feral_data: &mut Vec<FeralItem>,
    feral_by_tile: &mut BTreeMap<(u8, u8), FeralItemId>,
    pos: Tile,
    slot: ItemSlot,
) -> (r: Result<FeralItemId, (FeralItemId, ItemSlot, bool)>)
    requires
        old(feral_ids).wf(),
        ferals_wf(item_types@.len(), old(feral_ids)@, old(feral_data)@, old(feral_by_tile)@),
        slot.count > 0,
        slot.itemtype.0 < item_types@.len(),
        old(feral_ids)@.len() > 0,
        old(feral_ids)@.len() * 2 <= usize::MAX - 63,
    ensures
        final(feral_ids).wf(),
        ferals_wf(item_types@.len(), final(feral_ids)@, final(feral_data)@, final(feral_by_tile)@),
        placed(
            item_types@,
            old(feral_ids)@,
            old(feral_data)@,
            old(feral_by_tile)@,
            final(feral_ids)@,
            final(feral_data)@,
            final(feral_by_tile)@,
            pos,
            slot,
            r,
        ),
        old(feral_ids)@.len() <= final(feral_ids)@.len() <= old(feral_ids)@.len() * 2,
{
    let key: (u8, u8) = tile_key(pos);
    let found: Option<FeralItemId> = tile_lookup(feral_by_tile, key);
    match found {
        Some(feral) => {
            assert(active_at(feral_ids@, feral.0 as int));
            let stackable: u32 = item_types[slot.itemtype.0].stackable;
            let mut d: FeralItem = feral_data[feral.0];
            let left: ItemSlot = stack_slots(&mut d.slots, stackable, slot);
            feral_data[feral.0] = d;
            proof {
                lemma_stack_into_valid(
                    item_types@.len(),
                    old(feral_data)@[feral.0 as int].slots@,
                    stackable,
                    slot,
                );
                assert forall|i: int| #[trigger] active_at(feral_ids@, i) implies {
                    &&& i < feral_data@.len()
                    &&& pile_ok(item_types@.len(), feral_data@[i].slots@)
                    &&& feral_by_tile@.contains_key(tile_key_of(feral_data@[i].pos))
                    &&& feral_by_tile@[tile_key_of(feral_data@[i].pos)] == FeralItemId(i as usize)
                } by {
                    assert(active_at(old(feral_ids)@, i));
                }
            }
            if left.count != 0 {
                return Err((feral, left, left.count != slot.count));
            }
            return Ok(feral);
        },
        None => {
            let ghost active0 = feral_ids@;
            let feral: FeralItemId = feral_ids.create_resize();
            let ghost p = feral.0 as int;
            proof {
                assert(IdReg::<FeralItemId>::handles_obey());
                assert(is_next_slot(active0, p));
                assert(feral_ids@ == with_next_slot(active0, p));
            }
            tile_file(feral_by_tile, key, feral);
            let cap: usize = feral_ids.capacity();
            feral_data.resize(cap, FeralItem::default());
            let mut d: FeralItem = feral_data[feral.0];
            proof {
                if p < old(feral_data)@.len() {
                    assert(!active_at(active0, p));
                    assert(all_empty(old(feral_data)@[p].slots@));
                }
                assert(all_empty(d.slots@));
            }
            d.pos = pos;
            d.slots[0] = Some(slot);
            feral_data[feral.0] = d;
            proof {
                assert(d.slots@ =~= seq![Some(slot), None, None, None]);
                assert forall|i: int| #[trigger] active_at(feral_ids@, i) implies {
                    &&& i < feral_data@.len()
                    &&& pile_ok(item_types@.len(), feral_data@[i].slots@)
                    &&& feral_by_tile@.contains_key(tile_key_of(feral_data@[i].pos))
                    &&& feral_by_tile@[tile_key_of(feral_data@[i].pos)] == FeralItemId(i as usize)
                } by {
                    if i != p {
                        assert(active_at(active0, i));
                        assert(feral_data@[i] == old(feral_data)@[i]);
                    }
                }
                assert forall|i: int|
                    0 <= i < feral_data@.len() && !active_at(feral_ids@, i) implies all_empty(
                    (#[trigger] feral_data@[i]).slots@,
                ) by {
                    if i < old(feral_data)@.len() {
                        assert(!active_at(active0, i));
                        assert(feral_data@[i] == old(feral_data)@[i]);
                    }
                }
                assert forall|k: (u8, u8)| #[trigger]
                    feral_by_tile@.contains_key(k) implies {
                    &&& active_at(feral_ids@, feral_by_tile@[k].0 as int)
                    &&& feral_by_tile@[k].0 < feral_data@.len()
                    &&& tile_key_of(feral_data@[feral_by_tile@[k].0 as int].pos) == k
                } by {
                    if k != key {
                        assert(old(feral_by_tile)@.contains_key(k));
                        let v = old(feral_by_tile)@[k].0 as int;
                        assert(active_at(active0, v));
                        assert(feral_data@[v] == old(feral_data)@[v]);
                    }
                }
            }
            return Ok(feral);
        },
    }
}

/// Removes the pile from the world if all its slots are empty: its handle is
/// released and its tile is taken out of the index.
pub fn feral_remove_if_empty(
    feral_ids: &mut IdReg<FeralItemId>,
    feral_data: &mut Vec<FeralItem>,
    feral_by_tile: &mut BTreeMap<(u8, u8), FeralItemId>,
    feral: FeralItemId,
)
    requires
        old(feral_ids).wf(),
        feral.0 < old(feral_data)@.len(),
        feral.0 < old(feral_ids)@.len(),
    ensures
        final(feral_ids).wf(),
        final(feral_data)@ == old(feral_data)@,
        all_empty(old(feral_data)@[feral.0 as int].slots@) ==> {
            &&& final(feral_ids)@ == old(feral_ids)@.update(feral.0 as int, false)
            &&& final(feral_by_tile)@ == old(feral_by_tile)@.remove(
                tile_key_of(old(feral_data)@[feral.0 as int].pos),
            )
        },
        !all_empty(old(feral_data)@[feral.0 as int].slots@) ==> {
            &&& final(feral_ids)@ == old(feral_ids)@
            &&& final(feral_by_tile)@ == old(feral_by_tile)@
        },
        forall|n_types: nat|
            ferals_wf_but(
                n_types,
                old(feral_ids)@,
                old(feral_data)@,
                old(feral_by_tile)@,
                feral.0 as int,
            ) ==> ferals_wf(n_types, final(feral_ids)@, final(feral_data)@, final(feral_by_tile)@),
{
    let d: FeralItem = feral_data[feral.0];
    let mut empty: bool = true;
    let mut i: usize = 0;
    while i < 4
        invariant
            i <= 4,
            d.slots@.len() == 4,
            empty == (forall|j: int| 0 <= j < i ==> d.slots@[j] is None),
        decreases 4 - i,
    {
        if d.slots[i].is_some() {
            empty = false;
        }
        i += 1;
    }
    if empty {
        let _ = feral_ids.remove(feral);
        tile_unfile(feral_by_tile, tile_key(d.pos));
        proof {
            assert forall|n_types: nat|
                ferals_wf_but(
                    n_types,
                    old(feral_ids)@,
                    old(feral_data)@,
                    old(feral_by_tile)@,
                    feral.0 as int,
                ) implies ferals_wf(n_types, feral_ids@, feral_data@, feral_by_tile@) by {
                lemma_removed_pile_wf(
                    n_types,
                    old(feral_ids)@,
                    feral_data@,
                    old(feral_by_tile)@,
                    feral.0 as int,
                );
            }
        }
    } else {
        proof {
            assert forall|n_types: nat|
                ferals_wf_but(
                    n_types,
                    old(feral_ids)@,
                    old(feral_data)@,
                    old(feral_by_tile)@,
                    feral.0 as int,
                ) implies ferals_wf(n_types, feral_ids@, feral_data@, feral_by_tile@) by {
                let j = choose|j: int| 0 <= j < 4 && d.slots@[j] is Some;
                assert forall|i: int| #[trigger] active_at(feral_ids@, i) implies feral_data@[i].slots@[0]
                    is Some by {
                    if i == feral.0 {
                        assert(is_packed(d.slots@));
                    }
                }
            }
        }
    }
}

/// Releasing an emptied pile and taking its tile out of the index leaves the
/// piles consistent.
pub proof fn lemma_removed_pile_wf(
    n_types: nat,
    active: Seq<bool>,
    data: Seq<FeralItem>,
    by_tile: Map<(u8, u8), FeralItemId>,
    loose: int,
)
    requires
        ferals_wf_but(n_types, active, data, by_tile, loose),
        0 <= loose < data.len(),
        0 <= loose < active.len(),
        all_empty(data[loose].slots@),
    ensures
        ferals_wf(
            n_types,
            active.update(loose, false),
            data,
            by_tile.remove(tile_key_of(data[loose].pos)),
        ),
{
    let active2 = active.update(loose, false);
    let by_tile2 = by_tile.remove(tile_key_of(data[loose].pos));
    assert forall|i: int| #[trigger] active_at(active2, i) implies {
        &&& i < data.len()
        &&& pile_sound(n_types, data[i].slots@)
        &&& data[i].slots@[0] is Some
        &&& by_tile2.contains_key(tile_key_of(data[i].pos))
        &&& by_tile2[tile_key_of(data[i].pos)] == FeralItemId(i as usize)
    } by {
        assert(active_at(active, i));
        if tile_key_of(data[i].pos) == tile_key_of(data[loose].pos) {
            if active_at(active, loose) {
                assert(by_tile[tile_key_of(data[loose].pos)] == FeralItemId(loose as usize));
            } else {
                let k = tile_key_of(data[i].pos);
                assert(by_tile.contains_key(k));
            }
        }
    }
    assert forall|i: int| 0 <= i < data.len() && !active_at(active2, i) implies all_empty(
        (#[trigger] data[i]).slots@,
    ) by {
        if i != loose {
            assert(!active_at(active, i));
        }
    }
    assert forall|k: (u8, u8)| #[trigger] by_tile2.contains_key(k) implies {
        &&& active_at(active2, by_tile2[k].0 as int)
        &&& by_tile2[k].0 < data.len()
        &&& tile_key_of(data[by_tile2[k].0 as int].pos) == k
    } by {
        assert(by_tile.contains_key(k));
    }
}

/// Whether requirement `k` is the first of its item type in the list. Only
/// the first requirement of a type is ever served.
pub open spec fn is_first_req(req: Seq<ItemSlot>, k: int) -> bool {
    &&& 0 <= k < req.len()
    &&& forall|j: int| 0 <= j < k ==> (#[trigger] req[j]).itemtype != req[k].itemtype
}

/// Whether the list holds a requirement of type `t`.
pub open spec fn wants(req: Seq<ItemSlot>, t: ItemTypeId) -> bool {
    exists|k: int| 0 <= k < req.len() && (#[trigger] req[k]).itemtype == t
}

/// How many items of type `t` the list asks for: the count of its first
/// requirement of that type.
pub open spec fn needed(req: Seq<ItemSlot>, t: ItemTypeId) -> nat
    decreases req.len(),
{
    if req.len() == 0 {
        0
    } else if req[0].itemtype == t {
        req[0].count as nat
    } else {
        needed(req.skip(1), t)
    }
}

/// The slots after the requirements were taken out of them, front slots
/// first. Slots of a type that no requirement names stay as they are.
pub open spec fn consumed(slots: Seq<Option<ItemSlot>>, req: Seq<ItemSlot>) -> Seq<
    Option<ItemSlot>,
> {
    Seq::new(
        slots.len(),
        |i: int|
            match slots[i] {
                Some(s) => if wants(req, s.itemtype) {
                    drain_one(
                        slots[i],
                        s.itemtype,
                        still_wanted(needed(req, s.itemtype), total_of(slots.take(i), s.itemtype)),
                    )
                } else {
                    slots[i]
                },
                None => None,
            },
    )
}

/// What is left of each requirement once the slots gave what they hold: the
/// first requirement of a type is reduced by the total of that type, the
/// others stay.
pub open spec fn reqs_left(slots: Seq<Option<ItemSlot>>, req: Seq<ItemSlot>) -> Seq<ItemSlot> {
    Seq::new(
        req.len(),
        |k: int|
            if is_first_req(req, k) {
                ItemSlot {
                    itemtype: req[k].itemtype,
                    count: still_wanted(req[k].count as nat, total_of(slots, req[k].itemtype)) as u32,
                }
            } else {
                req[k]
            },
    )
}

/// Whether the slots hold all that the requirements ask for, summed over the
/// slots.
pub open spec fn req_met(slots: Seq<Option<ItemSlot>>, req: Seq<ItemSlot>) -> bool {
    forall|k: int| 0 <= k < req.len() ==> (#[trigger] reqs_left(slots, req)[k]).count == 0
}

/// The stack limit of an item type.
pub open spec fn stack_limit(item_types: Seq<ItemType>, t: ItemTypeId) -> u32 {
    item_types[t.0 as int].stackable
}

/// The slots, the outputs and whether all went well, after the first `n`
/// outputs were stacked into the slots one after the other. The first output
/// that does not fit whole stops the work.
pub open spec fn outputs_after(
    item_types: Seq<ItemType>,
    slots: Seq<Option<ItemSlot>>,
    outs: Seq<ItemSlot>,
    n: nat,
) -> (Seq<Option<ItemSlot>>, Seq<ItemSlot>, bool)
    decreases n,
{
    if n == 0 {
        (slots, outs, true)
    } else {
        let prev = outputs_after(item_types, slots, outs, (n - 1) as nat);
        if !prev.2 {
            prev
        } else {
            let st = stack_into(prev.0, stack_limit(item_types, outs[n - 1].itemtype), outs[n - 1]);
            (st.0, prev.1.update(n - 1, st.1), st.1.count == 0)
        }
    }
}

/// The draft on which the outputs are placed: the slots without the
/// requirements, gaps closed.
pub open spec fn craft_draft(slots: Seq<Option<ItemSlot>>, req: Seq<ItemSlot>) -> Seq<
    Option<ItemSlot>,
> {
    compacted(consumed(slots, req))
}

/// Whether the recipe can be crafted from the slots: the requirements are met
/// and every output fits whole into the draft.
pub open spec fn craft_fits(
    item_types: Seq<ItemType>,
    slots: Seq<Option<ItemSlot>>,
    req: Seq<ItemSlot>,
    outs: Seq<ItemSlot>,
) -> bool {
    &&& req_met(slots, req)
    &&& outputs_after(item_types, craft_draft(slots, req), outs, outs.len()).2
}

/// The slots after the recipe was crafted.
pub open spec fn crafted(
    item_types: Seq<ItemType>,
    slots: Seq<Option<ItemSlot>>,
    req: Seq<ItemSlot>,
    outs: Seq<ItemSlot>,
) -> Seq<Option<ItemSlot>> {
    outputs_after(item_types, craft_draft(slots, req), outs, outs.len()).0
}

proof fn lemma_needed_first(req: Seq<ItemSlot>, k: int)
    requires
        is_first_req(req, k),
    ensures
        needed(req, req[k].itemtype) == req[k].count,
        wants(req, req[k].itemtype),
    decreases k,
{
    if k > 0 {
        assert(req[0].itemtype != req[k].itemtype);
        let tail = req.skip(1);
        assert(tail[k - 1] == req[k]);
        assert(is_first_req(tail, k - 1)) by {
            assert forall|j: int| 0 <= j < k - 1 implies (#[trigger] tail[j]).itemtype != tail[k
                - 1].itemtype by {
                assert(tail[j] == req[j + 1]);
            }
        }
        lemma_needed_first(tail, k - 1);
    }
}

/// The first requirement of type `t`, if the list holds one.
fn find_req(req: &[ItemSlot], t: ItemTypeId) -> (r: Option<usize>)
    ensures
        match r {
            Some(k) => is_first_req(req@, k as int) && req@[k as int].itemtype == t,
            None => !wants(req@, t),
        },
{
    let n: usize = req.len();
    let mut k: usize = 0;
    while k < n
        invariant
            k <= n,
            n == req@.len(),
            forall|j: int| 0 <= j < k ==> (#[trigger] req@[j]).itemtype != t,
        decreases n - k,
    {
        if req[k].itemtype == t {
            return Some(k);
        }
        k += 1;
    }
    None
}

/// Crafts on a copy of the slots: takes the requirements out of it, closes
/// the gaps and stacks the outputs in. Returns the copy if every requirement
/// was met and every output fitted whole. `req` and `out` are worked on in
/// place: they end up holding what was not met and what was not placed.
pub fn craftt(
    item_types: &Vec<ItemType>,
    slots: &Burger,
    req: &mut [ItemSlot],
    out: &mut [ItemSlot],
) -> (r: Option<Burger>)
    requires
        forall|k: int|
            0 <= k < old(out)@.len() ==> (#[trigger] old(out)@[k]).itemtype.0 < item_types@.len(),
    ensures
        r is Some <==> craft_fits(item_types@, slots@, old(req)@, old(out)@),
        r is Some ==> r->0@ == crafted(item_types@, slots@, old(req)@, old(out)@),
        final(req)@ == reqs_left(slots@, old(req)@),
        final(out)@ == if req_met(slots@, old(req)@) {
            outputs_after(
                item_types@,
                craft_draft(slots@, old(req)@),
                old(out)@,
                old(out)@.len(),
            ).1
        } else {
            old(out)@
        },
{
    let mut draft: Burger = *slots;
    let n_req: usize = req.len();
    let mut i: usize = 0;
    while i < 4
        invariant
            i <= 4,
            draft@.len() == 4,
            slots@.len() == 4,
            n_req == req@.len(),
            req@.len() == old(req)@.len(),
            forall|j: int| 0 <= j < i ==> draft@[j] == consumed(slots@, old(req)@)[j],
            forall|j: int| i <= j < 4 ==> draft@[j] == slots@[j],
            forall|k: int|
                0 <= k < n_req ==> #[trigger] req@[k] == (if is_first_req(old(req)@, k) {
                    ItemSlot {
                        itemtype: old(req)@[k].itemtype,
                        count: still_wanted(
                            old(req)@[k].count as nat,
                            total_of(slots@.take(i as int), old(req)@[k].itemtype),
                        ) as u32,
                    }
                } else {
                    old(req)@[k]
                }),
        decreases 4 - i,
    {
        let ghost req_before = req@;
        if let Some(draft_slot) = draft[i] {
            if let Some(k) = find_req(req, draft_slot.itemtype) {
                proof {
                    assert(req@[k as int].itemtype == old(req)@[k as int].itemtype);
                    assert(is_first_req(old(req)@, k as int)) by {
                        assert forall|j: int| 0 <= j < k implies (#[trigger] old(req)@[j]).itemtype
                            != old(req)@[k as int].itemtype by {
                            assert(req@[j].itemtype == old(req)@[j].itemtype);
                        }
                    }
                    lemma_needed_first(old(req)@, k as int);
                }
                let req_slot: ItemSlot = req[k];
                let consume: u32 = if draft_slot.count < req_slot.count {
                    draft_slot.count
                } else {
                    req_slot.count
                };
                req[k] = ItemSlot { itemtype: req_slot.itemtype, count: req_slot.count - consume };
                let left: u32 = draft_slot.count - consume;
                if left == 0 {
                    draft[i] = None;
                } else {
                    draft[i] = Some(ItemSlot { itemtype: draft_slot.itemtype, count: left });
                }
            } else {
                proof {
                    if wants(old(req)@, draft_slot.itemtype) {
                        let k = choose|k: int|
                            0 <= k < old(req)@.len() && (#[trigger] old(req)@[k]).itemtype
                                == draft_slot.itemtype;
                        assert(req@[k].itemtype == old(req)@[k].itemtype);
                    }
                }
            }
        }
        proof {
            assert forall|k: int| 0 <= k < n_req implies #[trigger] req@[k] == (if is_first_req(
                old(req)@,
                k,
            ) {
                ItemSlot {
                    itemtype: old(req)@[k].itemtype,
                    count: still_wanted(
                        old(req)@[k].count as nat,
                        total_of(slots@.take(i as int + 1), old(req)@[k].itemtype),
                    ) as u32,
                }
            } else {
                old(req)@[k]
            }) by {
                lemma_total_take_step(slots@, old(req)@[k].itemtype, i as int);
                assert(req_before[k].itemtype == old(req)@[k].itemtype);
            }
        }
        i += 1;
    }
    proof {
        assert(slots@.take(4) =~= slots@);
        assert(req@ =~= reqs_left(slots@, old(req)@));
        assert(draft@ =~= consumed(slots@, old(req)@));
    }
    let mut k: usize = 0;
    while k < n_req
        invariant
            k <= n_req,
            n_req == req@.len(),
            req@ == reqs_left(slots@, old(req)@),
            out@ == old(out)@,
            forall|j: int| 0 <= j < k ==> (#[trigger] req@[j]).count == 0,
        decreases n_req - k,
    {
        if req[k].count != 0 {
            return None;
        }
        k += 1;
    }
    compact_slots(&mut draft);

    let n_out: usize = out.len();
    let mut o: usize = 0;
    while o < n_out
        invariant
            o <= n_out,
            n_out == out@.len(),
            req@ == reqs_left(slots@, old(req)@),
            req_met(slots@, old(req)@),
            out@.len() == old(out)@.len(),
            draft@.len() == 4,
            forall|k: int|
                0 <= k < old(out)@.len() ==> (#[trigger] old(out)@[k]).itemtype.0
                    < item_types@.len(),
            (draft@, out@, true) == outputs_after(
                item_types@,
                craft_draft(slots@, old(req)@),
                old(out)@,
                o as nat,
            ),
        decreases n_out - o,
    {
        let out_slot: ItemSlot = out[o];
        proof {
            assert(out@[o as int] == old(out)@[o as int]) by {
                lemma_outputs_after_keeps(
                    item_types@,
                    craft_draft(slots@, old(req)@),
                    old(out)@,
                    o as nat,
                    o as int,
                );
            }
            assert(old(out)@[o as int].itemtype.0 < item_types@.len());
        }
        let stackable: u32 = item_types[out_slot.itemtype.0].stackable;
        let left: ItemSlot = stack_slots(&mut draft, stackable, out_slot);
        out[o] = left;
        if left.count != 0 {
            proof {
                lemma_outputs_after_stuck(
                    item_types@,
                    craft_draft(slots@, old(req)@),
                    old(out)@,
                    o as nat + 1,
                    n_out as nat,
                );
            }
            return None;
        }
        o += 1;
    }
    return Some(draft);
}

/// Handling the first `n` outputs leaves the later ones as they were, and
/// keeps the number of outputs.
pub proof fn lemma_outputs_after_keeps(
    item_types: Seq<ItemType>,
    slots: Seq<Option<ItemSlot>>,
    outs: Seq<ItemSlot>,
    n: nat,
    k: int,
)
    requires
        n <= k < outs.len(),
    ensures
        outputs_after(item_types, slots, outs, n).1.len() == outs.len(),
        outputs_after(item_types, slots, outs, n).1[k] == outs[k],
    decreases n,
{
    if n > 0 {
        lemma_outputs_after_keeps(item_types, slots, outs, (n - 1) as nat, k);
    }
}

/// Once an output did not fit, the outputs after it change nothing.
pub proof fn lemma_outputs_after_stuck(
    item_types: Seq<ItemType>,
    slots: Seq<Option<ItemSlot>>,
    outs: Seq<ItemSlot>,
    n: nat,
    m: nat,
)
    requires
        n <= m,
        !outputs_after(item_types, slots, outs, n).2,
    ensures
        outputs_after(item_types, slots, outs, m) == outputs_after(item_types, slots, outs, n),
    decreases m,
{
    if m > n {
        lemma_outputs_after_stuck(item_types, slots, outs, n, (m - 1) as nat);
    }
}

/// `count` items of the catalog's type number `itemtype`.
pub open spec fn stack_of(itemtype: usize, count: u32) -> ItemSlot {
    ItemSlot { itemtype: ItemTypeId(itemtype), count }
}

/// The numbers of the item recipes.
pub open spec fn is_item_recipe(recipe: u32) -> bool {
    recipe == 0 || recipe == 1 || recipe == 2 || recipe == 69
}

/// What an item recipe takes: 0 takes a destroyed drone apart, 1 makes
/// bullets, 2 makes a clump, 69 uses up an obfuscator charge.
pub open spec fn item_recipe_req(recipe: u32) -> Seq<ItemSlot> {
    if recipe == 0 {
        seq![stack_of(ITEM_DEAD_DRONE, 1)]
    } else if recipe == 1 {
        seq![stack_of(ITEM_SCRAP, 1), stack_of(ITEM_GUNPOWDER, 1)]
    } else if recipe == 2 {
        seq![stack_of(ITEM_ALIGNITE, 4)]
    } else {
        seq![stack_of(ITEM_OBFUSCATOR, 1)]
    }
}

/// What an item recipe gives.
pub open spec fn item_recipe_out(recipe: u32) -> Seq<ItemSlot> {
    if recipe == 0 {
        seq![stack_of(ITEM_SCRAP, 1), stack_of(ITEM_BATTERY, 1)]
    } else if recipe == 1 {
        seq![stack_of(ITEM_BULLET, 6)]
    } else if recipe == 2 {
        seq![stack_of(ITEM_CLUMP, 1)]
    } else {
        Seq::<ItemSlot>::empty()
    }
}

/// The numbers of the machine recipes.
pub open spec fn is_machine_recipe(recipe: u32) -> bool {
    recipe == 5 || recipe == 6 || recipe == 7
}

/// What a machine recipe takes: 5 builds a turret, 6 a conveyor, 7 a
/// conveyor with a filter. A machine recipe gives no items.
pub open spec fn machine_recipe_req(recipe: u32) -> Seq<ItemSlot> {
    if recipe == 5 {
        seq![stack_of(ITEM_SCRAP, 2)]
    } else if recipe == 6 {
        seq![stack_of(ITEM_SCRAP, 4), stack_of(ITEM_BATTERY, 4)]
    } else {
        seq![stack_of(ITEM_SCRAP, 4), stack_of(ITEM_BATTERY, 4), stack_of(ITEM_ALIGNITE, 1)]
    }
}

fn stack(itemtype: usize, count: u32) -> (r: ItemSlot)
    ensures
        r == stack_of(itemtype, count),
{
    ItemSlot { itemtype: ItemTypeId(itemtype), count }
}

/// Crafts an item recipe on a copy of the slots; `None` where the slots do
/// not hold what it takes or cannot hold what it gives.
pub fn craft_item_recipe(item_types: &Vec<ItemType>, slots: &Burger, recipe: u32) -> (r: Option<
    Burger,
>)
    requires
        is_item_recipe(recipe),
        forall|k: int|
            0 <= k < item_recipe_out(recipe).len() ==> (#[trigger] item_recipe_out(
                recipe,
            )[k]).itemtype.0 < item_types@.len(),
    ensures
        r is Some <==> craft_fits(
            item_types@,
            slots@,
            item_recipe_req(recipe),
            item_recipe_out(recipe),
        ),
        r is Some ==> r->0@ == crafted(
            item_types@,
            slots@,
            item_recipe_req(recipe),
            item_recipe_out(recipe),
        ),
{
    let mut req: Vec<ItemSlot> = Vec::new();
    let mut out: Vec<ItemSlot> = Vec::new();
    if recipe == 0 {
        req.push(stack(ITEM_DEAD_DRONE, 1));
        out.push(stack(ITEM_SCRAP, 1));
        out.push(stack(ITEM_BATTERY, 1));
    } else if recipe == 1 {
        req.push(stack(ITEM_SCRAP, 1));
        req.push(stack(ITEM_GUNPOWDER, 1));
        out.push(stack(ITEM_BULLET, 6));
    } else if recipe == 2 {
        req.push(stack(ITEM_ALIGNITE, 4));
        out.push(stack(ITEM_CLUMP, 1));
    } else {
        req.push(stack(ITEM_OBFUSCATOR, 1));
    }
    proof {
        assert(req@ =~= item_recipe_req(recipe));
        assert(out@ =~= item_recipe_out(recipe));
    }
    craftt(item_types, slots, req.as_mut_slice(), out.as_mut_slice())
}

/// Crafts a machine recipe on a copy of the slots; `None` where the slots do
/// not hold what it takes.
pub fn craft_machine_recipe(item_types: &Vec<ItemType>, slots: &Burger, recipe: u32) -> (r:
    Option<Burger>)
    requires
        is_machine_recipe(recipe),
    ensures
        r is Some <==> req_met(slots@, machine_recipe_req(recipe)),
        r is Some ==> r->0@ == craft_draft(slots@, machine_recipe_req(recipe)),
{
    let mut req: Vec<ItemSlot> = Vec::new();
    let mut out: Vec<ItemSlot> = Vec::new();
    if recipe == 5 {
        req.push(stack(ITEM_SCRAP, 2));
    } else if recipe == 6 {
        req.push(stack(ITEM_SCRAP, 4));
        req.push(stack(ITEM_BATTERY, 4));
    } else {
        req.push(stack(ITEM_SCRAP, 4));
        req.push(stack(ITEM_BATTERY, 4));
        req.push(stack(ITEM_ALIGNITE, 1));
    }
    proof {
        assert(req@ =~= machine_recipe_req(recipe));
        assert(out@ =~= Seq::<ItemSlot>::empty());
    }
    craftt(item_types, slots, req.as_mut_slice(), out.as_mut_slice())
}

/// The slots turned by one place: the first slot goes to the back.
pub open spec fn rotated(slots: Seq<Option<ItemSlot>>) -> Seq<Option<ItemSlot>> {
    slots.skip(1).push(slots[0])
}

/// Moves every slot one place to the front and the first slot to the back.
pub fn rotate_slots(slots: &mut Burger)
    ensures
        final(slots)@ == rotated(old(slots)@),
{
    let first: Option<ItemSlot> = slots[0];
    slots[0] = slots[1];
    slots[1] = slots[2];
    slots[2] = slots[3];
    slots[3] = first;
    proof {
        assert(slots@ =~= rotated(old(slots)@));
    }
}

/// The slots of a pile after one item was taken from its front slot: a front
/// slot left with nothing is emptied and goes to the back.
pub open spec fn front_taken(slots: Seq<Option<ItemSlot>>) -> Seq<Option<ItemSlot>> {
    let front = slots[0]->0;
    if front.count == 1 {
        rotated(slots.update(0, None))
    } else {
        slots.update(0, Some(ItemSlot { itemtype: front.itemtype, count: (front.count - 1) as u32 }))
    }
}

/// Takes one item from the front slot and returns its type.
pub fn take_front(slots: &mut Burger) -> (r: ItemTypeId)
    requires
        old(slots)@[0] is Some,
        old(slots)@[0]->0.count > 0,
    ensures
        r == old(slots)@[0]->0.itemtype,
        final(slots)@ == front_taken(old(slots)@),
{
    let front: ItemSlot = slots[0].unwrap();
    if front.count == 1 {
        slots[0] = None;
        rotate_slots(slots);
    } else {
        slots[0] = Some(ItemSlot { itemtype: front.itemtype, count: front.count - 1 });
    }
    front.itemtype
}

/// The slots of a pile after its whole front slot was picked up.
pub open spec fn front_removed(slots: Seq<Option<ItemSlot>>) -> Seq<Option<ItemSlot>> {
    rotated(slots.update(0, None))
}

/// Picks up the whole front slot of a pile.
pub fn take_front_slot(slots: &mut Burger) -> (r: ItemSlot)
    requires
        old(slots)@[0] is Some,
    ensures
        r == old(slots)@[0]->0,
        final(slots)@ == front_removed(old(slots)@),
{
    let front: ItemSlot = slots[0].unwrap();
    slots[0] = None;
    rotate_slots(slots);
    front
}

/// Taking from the front of a sound pile leaves it sound.
pub proof fn lemma_front_taken_sound(n_types: nat, slots: Seq<Option<ItemSlot>>)
    requires
        pile_ok(n_types, slots),
    ensures
        pile_sound(n_types, front_taken(slots)),
        pile_sound(n_types, front_removed(slots)),
{
    let a = front_taken(slots);
    let b = front_removed(slots);
    assert(b =~= seq![slots[1], slots[2], slots[3], None]);
    assert forall|i: int, j: int| 0 <= i < j < 4 && b[i] is None implies b[j] is None by {
        if j < 3 {
            assert(slots[i + 1] is None);
        }
    }
    assert forall|j: int| 0 <= j < 4 && b[j] is Some implies (#[trigger] b[j])->0.count > 0
        && b[j]->0.itemtype.0 < n_types by {
        assert(slots[j + 1] is Some);
    }
    if slots[0]->0.count != 1 {
        assert forall|i: int, j: int| 0 <= i < j < 4 && a[i] is None implies a[j] is None by {
            assert(slots[i] is None);
        }
        assert forall|j: int| 0 <= j < 4 && a[j] is Some implies (#[trigger] a[j])->0.count > 0
            && a[j]->0.itemtype.0 < n_types by {
            assert(slots[j] is Some);
        }
    }
}

/// Taking items of one type out of a sound pile and closing the gaps leaves
/// it sound.
pub proof fn lemma_take_sound(n_types: nat, slots: Seq<Option<ItemSlot>>, t: ItemTypeId, amount: nat)
    requires
        pile_sound(n_types, slots),
    ensures
        pile_sound(n_types, compacted(drained(slots, t, amount))),
{
    let d = drained(slots, t, amount);
    assert(slots_valid(n_types, d)) by {
        assert forall|j: int| 0 <= j < d.len() && d[j] is Some implies (#[trigger] d[j])->0.count
            > 0 && d[j]->0.itemtype.0 < n_types by {
            assert(slots[j] is Some);
        }
    }
    lemma_compacted_valid(n_types, d);
}

/// Each occupied slot of the compacted slots is one of the slots.
pub proof fn lemma_somes_members(slots: Seq<Option<ItemSlot>>, i: int)
    requires
        0 <= i < somes(slots).len(),
    ensures
        exists|j: int| 0 <= j < slots.len() && slots[j] == somes(slots)[i],
    decreases slots.len(),
{
    if slots.len() > 0 {
        let front = slots.drop_last();
        if slots.last() is Some && i == somes(front).len() {
            assert(slots[slots.len() - 1] == somes(slots)[i]);
        } else {
            lemma_somes_members(front, i);
            let j = choose|j: int| 0 <= j < front.len() && front[j] == somes(front)[i];
            assert(slots[j] == somes(slots)[i]);
        }
    }
}

/// Closing the gaps of valid slots gives valid, packed slots.
pub proof fn lemma_compacted_valid(n_types: nat, slots: Seq<Option<ItemSlot>>)
    requires
        slots_valid(n_types, slots),
    ensures
        slots_valid(n_types, compacted(slots)),
        is_packed(compacted(slots)),
        compacted(slots).len() == slots.len(),
{
    lemma_compacted_packed(slots);
    lemma_somes_bounds(slots);
    let c = compacted(slots);
    assert forall|j: int| 0 <= j < c.len() && c[j] is Some implies (#[trigger] c[j])->0.count > 0
        && c[j]->0.itemtype.0 < n_types by {
        lemma_somes_members(slots, j);
        let k = choose|k: int| 0 <= k < slots.len() && slots[k] == somes(slots)[j];
        assert(slots[k] is Some);
    }
}

/// A slot after a drone passed over it: a stack of batteries has become a
/// stack of gunpowder.
pub open spec fn pressed_one(slot: Option<ItemSlot>) -> Option<ItemSlot> {
    match slot {
        Some(s) => if s.itemtype.0 == ITEM_BATTERY {
            Some(ItemSlot { itemtype: ItemTypeId(ITEM_GUNPOWDER), count: s.count })
        } else {
            slot
        },
        None => None,
    }
}

/// The slots after a drone passed over the pile.
pub open spec fn pressed(slots: Seq<Option<ItemSlot>>) -> Seq<Option<ItemSlot>> {
    Seq::new(slots.len(), |i: int| pressed_one(slots[i]))
}

/// Turns every stack of batteries into gunpowder. Returns whether there was one.
pub fn press_batteries(slots: &mut Burger) -> (r: bool)
    ensures
        final(slots)@ == pressed(old(slots)@),
        r == has_type(old(slots)@, ItemTypeId(ITEM_BATTERY)),
{
    let mut pressed_any: bool = false;
    let mut i: usize = 0;
    while i < 4
        invariant
            i <= 4,
            slots@.len() == 4,
            old(slots)@.len() == 4,
            forall|j: int| 0 <= j < i ==> slots@[j] == pressed_one(old(slots)@[j]),
            forall|j: int| i <= j < 4 ==> slots@[j] == old(slots)@[j],
            pressed_any == exists|j: int|
                0 <= j < i && #[trigger] is_of(old(slots)@[j], ItemTypeId(ITEM_BATTERY)),
        decreases 4 - i,
    {
        if let Some(slot) = slots[i] {
            if slot.itemtype.0 == ITEM_BATTERY {
                pressed_any = true;
                slots[i] = Some(ItemSlot { itemtype: ItemTypeId(ITEM_GUNPOWDER), count: slot.count });
                proof {
                    assert(is_of(old(slots)@[i as int], ItemTypeId(ITEM_BATTERY)));
                }
            }
        }
        i += 1;
    }
    proof {
        assert(slots@ =~= pressed(old(slots)@));
    }
    pressed_any
}

/// Lets a drone that crosses the midpoint of the rail segment on `tile` press
/// the pile that lies there, if one does: its batteries become gunpowder.
/// Returns whether any did.
pub fn press_batteries_at(
    tile: Tile,
    feral_data: &mut Vec<FeralItem>,
    feral_by_tile: &BTreeMap<(u8, u8), FeralItemId>,
) -> (r: bool)
    requires
        forall|k: (u8, u8)| #[trigger]
            feral_by_tile@.contains_key(k) ==> feral_by_tile@[k].0 < old(feral_data)@.len(),
    ensures
        final(feral_data)@.len() == old(feral_data)@.len(),
        !feral_by_tile@.contains_key(tile_key_of(tile)) ==> !r && final(feral_data)@ == old(
            feral_data,
        )@,
        feral_by_tile@.contains_key(tile_key_of(tile)) ==> {
            let feral = feral_by_tile@[tile_key_of(tile)].0 as int;
            &&& r == has_type(old(feral_data)@[feral].slots@, ItemTypeId(ITEM_BATTERY))
            &&& final(feral_data)@[feral].slots@ == pressed(old(feral_data)@[feral].slots@)
            &&& final(feral_data)@[feral].pos == old(feral_data)@[feral].pos
            &&& forall|i: int|
                0 <= i < old(feral_data)@.len() && i != feral ==> final(feral_data)@[i] == old(
                    feral_data,
                )@[i]
        },
        forall|n_types: nat, active: Seq<bool>|
            n_types > ITEM_GUNPOWDER && ferals_wf(
                n_types,
                active,
                old(feral_data)@,
                feral_by_tile@,
            ) ==> ferals_wf(n_types, active, final(feral_data)@, feral_by_tile@),
{
    match tile_lookup(feral_by_tile, tile_key(tile)) {
        None => false,
        Some(feral) => {
            let mut d: FeralItem = feral_data[feral.0];
            let r: bool = press_batteries(&mut d.slots);
            feral_data[feral.0] = d;
            proof {
                assert forall|n_types: nat, active: Seq<bool>|
                    n_types > ITEM_GUNPOWDER && ferals_wf(
                        n_types,
                        active,
                        old(feral_data)@,
                        feral_by_tile@,
                    ) implies ferals_wf(n_types, active, feral_data@, feral_by_tile@) by {
                    let before = old(feral_data)@[feral.0 as int].slots@;
                    let after = feral_data@[feral.0 as int].slots@;
                    assert forall|i: int| #[trigger] active_at(active, i) implies {
                        &&& i < feral_data@.len()
                        &&& pile_sound(n_types, feral_data@[i].slots@)
                        &&& feral_data@[i].slots@[0] is Some
                        &&& feral_by_tile@.contains_key(tile_key_of(feral_data@[i].pos))
                        &&& feral_by_tile@[tile_key_of(feral_data@[i].pos)] == FeralItemId(
                            i as usize,
                        )
                    } by {
                        if i == feral.0 {
                            assert(pile_sound(n_types, before));
                            assert forall|a: int, b: int|
                                0 <= a < b < 4 && after[a] is None implies after[b] is None by {
                                assert(before[a] is None);
                            }
                            assert forall|j: int| 0 <= j < 4 && after[j] is Some implies (
                            #[trigger] after[j])->0.count > 0 && after[j]->0.itemtype.0
                                < n_types by {
                                assert(before[j] is Some);
                            }
                        } else {
                            assert(feral_data@[i] == old(feral_data)@[i]);
                        }
                    }
                    assert forall|i: int|
                        0 <= i < feral_data@.len() && !active_at(active, i) implies all_empty(
                        (#[trigger] feral_data@[i]).slots@,
                    ) by {
                        if i == feral.0 {
                            assert(all_empty(before));
                            assert forall|j: int| 0 <= j < 4 implies after[j] is None by {
                                assert(before[j] is None);
                            }
                        } else {
                            assert(feral_data@[i] == old(feral_data)@[i]);
                        }
                    }
                    assert forall|k: (u8, u8)| #[trigger]
                        feral_by_tile@.contains_key(k) implies {
                        &&& active_at(active, feral_by_tile@[k].0 as int)
                        &&& feral_by_tile@[k].0 < feral_data@.len()
                        &&& tile_key_of(feral_data@[feral_by_tile@[k].0 as int].pos) == k
                    } by {
                        let v = feral_by_tile@[k].0 as int;
                        if v != feral.0 {
                            assert(feral_data@[v] == old(feral_data)@[v]);
                        }
                    }
                }
            }
            r
        },
    }
}

/// What stacking leaves over is nothing, or some of the items offered.
pub proof fn lemma_stack_into_left(slots: Seq<Option<ItemSlot>>, stackable: u32, o: ItemSlot)
    ensures
        ({
            let left = stack_into(slots, stackable, o).1;
            left == no_slot() || (left.itemtype == o.itemtype && left.count <= o.count)
        }),
    decreases slots.len(),
{
    if slots.len() > 0 && o.count > 0 && slots[0] is Some {
        let s = slots[0]->0;
        let moved = if s.itemtype == o.itemtype {
            if room(stackable, s.count) < o.count {
                room(stackable, s.count)
            } else {
                o.count as nat
            }
        } else {
            0
        };
        lemma_stack_into_left(
            slots.skip(1),
            stackable,
            ItemSlot { itemtype: o.itemtype, count: (o.count - moved) as u32 },
        );
    }
}

/// Every output is at least one item of a type of the catalog.
pub open spec fn outs_valid(n_types: nat, outs: Seq<ItemSlot>) -> bool {
    forall|k: int|
        0 <= k < outs.len() ==> (#[trigger] outs[k]).count > 0 && outs[k].itemtype.0 < n_types
}

/// Taking the requirements out of valid slots leaves valid slots.
pub proof fn lemma_consumed_valid(n_types: nat, slots: Seq<Option<ItemSlot>>, req: Seq<ItemSlot>)
    requires
        slots_valid(n_types, slots),
    ensures
        slots_valid(n_types, consumed(slots, req)),
        consumed(slots, req).len() == slots.len(),
{
    let c = consumed(slots, req);
    assert forall|j: int| 0 <= j < c.len() && c[j] is Some implies (#[trigger] c[j])->0.count > 0
        && c[j]->0.itemtype.0 < n_types by {
        assert(slots[j] is Some);
    }
}

/// The draft of a sound pile is sound, and stacking valid outputs into it
/// keeps it sound; once one output went in, its first slot is occupied.
pub proof fn lemma_outputs_sound(
    item_types: Seq<ItemType>,
    slots: Seq<Option<ItemSlot>>,
    outs: Seq<ItemSlot>,
    n: nat,
)
    requires
        slots.len() == 4,
        is_packed(slots),
        slots_valid(item_types.len(), slots),
        outs_valid(item_types.len(), outs),
        n <= outs.len(),
    ensures
        pile_sound(item_types.len(), outputs_after(item_types, slots, outs, n).0),
        n > 0 ==> outputs_after(item_types, slots, outs, n).0[0] is Some,
    decreases n,
{
    if n > 0 {
        lemma_outputs_sound(item_types, slots, outs, (n - 1) as nat);
        let prev = outputs_after(item_types, slots, outs, (n - 1) as nat);
        if prev.2 {
            lemma_stack_into_valid(
                item_types.len(),
                prev.0,
                stack_limit(item_types, outs[n - 1].itemtype),
                outs[n - 1],
            );
        } else {
            lemma_outputs_stuck_at(item_types, slots, outs, (n - 1) as nat);
        }
    }
}

/// Where the outputs got stuck, one of them was handled before.
proof fn lemma_outputs_stuck_at(
    item_types: Seq<ItemType>,
    slots: Seq<Option<ItemSlot>>,
    outs: Seq<ItemSlot>,
    n: nat,
)
    requires
        !outputs_after(item_types, slots, outs, n).2,
    ensures
        n > 0,
{
}

/// Crafting on a sound pile gives a sound pile.
pub proof fn lemma_crafted_sound(
    item_types: Seq<ItemType>,
    slots: Seq<Option<ItemSlot>>,
    req: Seq<ItemSlot>,
    outs: Seq<ItemSlot>,
)
    requires
        pile_sound(item_types.len(), slots),
        outs_valid(item_types.len(), outs),
    ensures
        pile_sound(item_types.len(), craft_draft(slots, req)),
        pile_sound(item_types.len(), crafted(item_types, slots, req, outs)),
        outs.len() > 0 ==> crafted(item_types, slots, req, outs)[0] is Some,
{
    lemma_consumed_valid(item_types.len(), slots, req);
    lemma_compacted_valid(item_types.len(), consumed(slots, req));
    lemma_outputs_sound(item_types, craft_draft(slots, req), outs, outs.len());
}

/// A number of items of one type that is to be held; the type is
/// `usize::MAX` once the number is 0.
pub type Holding = (ItemTypeId, u32);

/// The first entry of the list that is of type `t`; the length of the list
/// where there is none.
pub open spec fn first_of_type(list: Seq<Holding>, t: ItemTypeId) -> int
    decreases list.len(),
{
    if list.len() == 0 {
        0
    } else if list[0].0 == t {
        0
    } else {
        1 + first_of_type(list.skip(1), t)
    }
}

/// The first entry of the list of which something is still to be held; the
/// length of the list where there is none.
pub open spec fn first_unheld(list: Seq<Holding>) -> int
    decreases list.len(),
{
    if list.len() == 0 {
        0
    } else if list[0].1 != 0 {
        0
    } else {
        1 + first_unheld(list.skip(1))
    }
}

/// The list after one slot took its part. An occupied slot takes, of the
/// first entry of its type, what its stack has room for. An empty slot takes
/// the first entry of which something is left, whole.
pub open spec fn held_by(item_types: Seq<ItemType>, slot: Option<ItemSlot>, list: Seq<Holding>) -> Seq<
    Holding,
> {
    match slot {
        Some(s) => {
            let k = first_of_type(list, s.itemtype);
            if k < list.len() {
                let space = room(stack_limit(item_types, s.itemtype), s.count);
                let left = if space < list[k].1 {
                    (list[k].1 - space) as u32
                } else {
                    0u32
                };
                list.update(
                    k,
                    (
                        if left == 0 {
                            ItemTypeId(usize::MAX)
                        } else {
                            list[k].0
                        },
                        left,
                    ),
                )
            } else {
                list
            }
        },
        None => {
            let k = first_unheld(list);
            if k < list.len() {
                list.update(k, (ItemTypeId(usize::MAX), 0u32))
            } else {
                list
            }
        },
    }
}

/// The list after the first `n` slots took their parts.
pub open spec fn held_after(
    item_types: Seq<ItemType>,
    slots: Seq<Option<ItemSlot>>,
    list: Seq<Holding>,
    n: nat,
) -> Seq<Holding>
    decreases n,
{
    if n == 0 {
        list
    } else {
        held_by(item_types, slots[n - 1], held_after(item_types, slots, list, (n - 1) as nat))
    }
}

fn find_of_type(list: &[Holding], t: ItemTypeId) -> (k: usize)
    ensures
        k == first_of_type(list@, t),
        k <= list@.len(),
        k < list@.len() ==> list@[k as int].0 == t,
{
    let n: usize = list.len();
    let mut k: usize = 0;
    proof {
        assert(list@.skip(0) =~= list@);
    }
    while k < n
        invariant
            k <= n,
            n == list@.len(),
            first_of_type(list@, t) == k + first_of_type(list@.skip(k as int), t),
        decreases n - k,
    {
        if list[k].0 == t {
            return k;
        }
        proof {
            assert(list@.skip(k as int).skip(1) =~= list@.skip(k as int + 1));
        }
        k += 1;
    }
    k
}

fn find_unheld(list: &[Holding]) -> (k: usize)
    ensures
        k == first_unheld(list@),
        k <= list@.len(),
        k < list@.len() ==> list@[k as int].1 != 0,
{
    let n: usize = list.len();
    let mut k: usize = 0;
    proof {
        assert(list@.skip(0) =~= list@);
    }
    while k < n
        invariant
            k <= n,
            n == list@.len(),
            first_unheld(list@) == k + first_unheld(list@.skip(k as int)),
        decreases n - k,
    {
        if list[k].1 != 0 {
            return k;
        }
        proof {
            assert(list@.skip(k as int).skip(1) =~= list@.skip(k as int + 1));
        }
        k += 1;
    }
    k
}

/// Whether the slots can take all the items of the list: each slot in turn
/// takes its part, as `held_by` says, and nothing may be left. The list is
/// worked on in place and ends up holding what the slots cannot take.
pub fn slots_can_hold(
    item_types: &Vec<ItemType>,
    slots: &[Option<ItemSlot>],
    can_hold: &mut [Holding],
) -> (r: bool)
    requires
        forall|i: int|
            0 <= i < slots@.len() && slots@[i] is Some ==> (#[trigger] slots@[i])->0.itemtype.0
                < item_types@.len(),
    ensures
        final(can_hold)@ == held_after(item_types@, slots@, old(can_hold)@, slots@.len()),
        r == forall|k: int| 0 <= k < final(can_hold)@.len() ==> (#[trigger] final(can_hold)@[k]).1 == 0,
{
    let n: usize = slots.len();
    let mut i: usize = 0;
    while i < n
        invariant
            i <= n,
            n == slots@.len(),
            forall|j: int|
                0 <= j < slots@.len() && slots@[j] is Some ==> (#[trigger] slots@[j])->0.itemtype.0
                    < item_types@.len(),
            can_hold@ == held_after(item_types@, slots@, old(can_hold)@, i as nat),
        decreases n - i,
    {
        match slots[i] {
            Some(held) => {
                let k: usize = find_of_type(can_hold, held.itemtype);
                if k < can_hold.len() {
                    let space: u32 = item_types[held.itemtype.0].stackable.saturating_sub(
                        held.count,
                    );
                    let entry: Holding = can_hold[k];
                    let left: u32 = if space < entry.1 {
                        entry.1 - space
                    } else {
                        0
                    };
                    can_hold[k] = (
                        if left == 0 {
                            ItemTypeId(usize::MAX)
                        } else {
                            entry.0
                        },
                        left,
                    );
                }
            },
            None => {
                let k: usize = find_unheld(can_hold);
                if k < can_hold.len() {
                    can_hold[k] = (ItemTypeId(usize::MAX), 0);
                }
            },
        }
        i += 1;
    }
    let m: usize = can_hold.len();
    let mut k: usize = 0;
    while k < m
        invariant
            k <= m,
            m == can_hold@.len(),
            can_hold@ == held_after(item_types@, slots@, old(can_hold)@, slots@.len()),
            forall|j: int| 0 <= j < k ==> (#[trigger] can_hold@[j]).1 == 0,
        decreases m - k,
    {
        if can_hold[k].1 != 0 {
            return false;
        }
        k += 1;
    }
    true
}

/// Items placed on a tile without a pile make a pile that holds them in its
/// first slot alone. Taking as many items of that type back takes them all
/// and leaves every slot empty, so that `feral_remove_if_empty` then releases
/// the pile and takes its tile out of the index.
pub proof fn lemma_place_then_take_empties(slot: ItemSlot)
    requires
        slot.count > 0,
    ensures
        ({
            let pile = seq![Some(slot), None, None, None];
            &&& total_of(pile, slot.itemtype) == slot.count
            &&& slot.count - still_wanted(slot.count as nat, total_of(pile, slot.itemtype))
                == slot.count
            &&& all_empty(compacted(drained(pile, slot.itemtype, slot.count as nat)))
        }),
{
    let pile = seq![Some(slot), None, None, None];
    let t = slot.itemtype;
    assert(pile.take(0) =~= Seq::<Option<ItemSlot>>::empty());
    lemma_total_take_step(pile, t, 0);
    lemma_total_take_step(pile, t, 1);
    lemma_total_take_step(pile, t, 2);
    lemma_total_take_step(pile, t, 3);
    assert(pile.take(4) =~= pile);
    let d = drained(pile, t, slot.count as nat);
    assert(d =~= seq![None, None, None, None]);
    assert(d.drop_last() =~= seq![None::<ItemSlot>, None, None]);
    assert(d.drop_last().drop_last() =~= seq![None::<ItemSlot>, None]);
    assert(d.drop_last().drop_last().drop_last() =~= seq![None::<ItemSlot>]);
    assert(somes(d).len() == 0) by {
        reveal_with_fuel(somes, 5);
    }
}

/// Where no two requirements are of the same type, the requirements are met
/// exactly if the slots hold, summed over all of them, what each asks for.
pub proof fn lemma_req_met_by_totals(slots: Seq<Option<ItemSlot>>, req: Seq<ItemSlot>)
    requires
        forall|j: int, k: int|
            0 <= j < k < req.len() ==> (#[trigger] req[j]).itemtype != (#[trigger] req[k]).itemtype,
    ensures
        req_met(slots, req) <==> forall|k: int|
            0 <= k < req.len() ==> total_of(slots, (#[trigger] req[k]).itemtype) >= req[k].count,
{
    assert forall|k: int| 0 <= k < req.len() implies is_first_req(req, k) by {}
    if req_met(slots, req) {
        assert forall|k: int| 0 <= k < req.len() implies total_of(
            slots,
            (#[trigger] req[k]).itemtype,
        ) >= req[k].count by {
            assert(reqs_left(slots, req)[k].count == 0);
        }
    }
    if forall|k: int|
        0 <= k < req.len() ==> total_of(slots, (#[trigger] req[k]).itemtype) >= req[k].count {
        assert forall|k: int| 0 <= k < req.len() implies (#[trigger] reqs_left(
            slots,
            req,
        )[k]).count == 0 by {
            assert(total_of(slots, req[k].itemtype) >= req[k].count);
        }
    }
}

/// The total of a type over two runs of slots put together is the sum of
/// the totals.
pub proof fn lemma_total_add(a: Seq<Option<ItemSlot>>, b: Seq<Option<ItemSlot>>, t: ItemTypeId)
    ensures
        total_of(a + b, t) == total_of(a, t) + total_of(b, t),
    decreases b.len(),
{
    if b.len() == 0 {
        assert(a + b =~= a);
    } else {
        assert((a + b).drop_last() =~= a + b.drop_last());
        lemma_total_add(a, b.drop_last(), t);
    }
}

/// Closing the gaps changes no total.
pub proof fn lemma_compacted_total(slots: Seq<Option<ItemSlot>>, t: ItemTypeId)
    ensures
        total_of(compacted(slots), t) == total_of(slots, t),
{
    lemma_somes_total(slots, t);
    lemma_somes_bounds(slots);
    let gaps = Seq::new((slots.len() - somes(slots).len()) as nat, |i: int| None::<ItemSlot>);
    lemma_total_add(somes(slots), gaps, t);
    lemma_total_none(gaps, t);
}

proof fn lemma_somes_total(slots: Seq<Option<ItemSlot>>, t: ItemTypeId)
    ensures
        total_of(somes(slots), t) == total_of(slots, t),
    decreases slots.len(),
{
    if slots.len() > 0 {
        lemma_somes_total(slots.drop_last(), t);
        if slots.last() is Some {
            assert(somes(slots).drop_last() =~= somes(slots.drop_last()));
        }
    }
}

proof fn lemma_total_none(slots: Seq<Option<ItemSlot>>, t: ItemTypeId)
    requires
        all_empty(slots),
    ensures
        total_of(slots, t) == 0,
    decreases slots.len(),
{
    if slots.len() > 0 {
        assert(all_empty(slots.drop_last())) by {
            assert forall|j: int| 0 <= j < slots.drop_last().len() implies slots.drop_last()[j]
                is None by {
                assert(slots[j] is None);
            }
        }
        lemma_total_none(slots.drop_last(), t);
    }
}

proof fn lemma_drained_prefix_total(
    slots: Seq<Option<ItemSlot>>,
    t: ItemTypeId,
    u: ItemTypeId,
    amount: nat,
    i: int,
)
    requires
        0 <= i <= slots.len(),
    ensures
        total_of(drained(slots, t, amount).take(i), u) == if u == t {
            let had = total_of(slots.take(i), t);
            if had >= amount {
                (had - amount) as nat
            } else {
                0
            }
        } else {
            total_of(slots.take(i), u)
        },
    decreases i,
{
    let d = drained(slots, t, amount);
    if i == 0 {
        assert(d.take(0) =~= Seq::<Option<ItemSlot>>::empty());
        assert(slots.take(0) =~= Seq::<Option<ItemSlot>>::empty());
    } else {
        lemma_drained_prefix_total(slots, t, u, amount, i - 1);
        lemma_total_take_step(slots, u, i - 1);
        lemma_total_take_step(d, u, i - 1);
    }
}

/// Taking up to `amount` items of type `t` and closing the gaps lowers the
/// total of that type by what was taken, and changes no other total.
pub proof fn lemma_take_totals(slots: Seq<Option<ItemSlot>>, t: ItemTypeId, u: ItemTypeId, amount: nat)
    ensures
        total_of(compacted(drained(slots, t, amount)), u) == if u == t {
            (total_of(slots, t) - (amount - still_wanted(amount, total_of(slots, t)))) as nat
        } else {
            total_of(slots, u)
        },
{
    let d = drained(slots, t, amount);
    lemma_compacted_total(d, u);
    lemma_drained_prefix_total(slots, t, u, amount, slots.len() as int);
    assert(d.take(slots.len() as int) =~= d);
    assert(slots.take(slots.len() as int) =~= slots);
}

/// Stacking loses no item and makes none: of the type offered, what the
/// slots hold afterwards and what is left over make up what the slots held
/// and what was offered; of any other type the slots hold what they held.
pub proof fn lemma_stack_into_totals(
    slots: Seq<Option<ItemSlot>>,
    stackable: u32,
    o: ItemSlot,
    u: ItemTypeId,
)
    requires
        o.count > 0,
    ensures
        ({
            let st = stack_into(slots, stackable, o);
            total_of(st.0, u) + (if u == o.itemtype {
                st.1.count as nat
            } else {
                0
            }) == total_of(slots, u) + (if u == o.itemtype {
                o.count as nat
            } else {
                0
            })
        }),
    decreases slots.len(),
{
    let st = stack_into(slots, stackable, o);
    if slots.len() == 0 {
    } else {
        let head = seq![slots[0]];
        let tail = slots.skip(1);
        assert(slots =~= head + tail);
        lemma_total_add(head, tail, u);
        assert(head.drop_last() =~= Seq::<Option<ItemSlot>>::empty());
        match slots[0] {
            None => {
                let put = seq![Some(o)];
                assert(st.0 =~= put + tail);
                lemma_total_add(put, tail, u);
                assert(put.drop_last() =~= Seq::<Option<ItemSlot>>::empty());
            },
            Some(s) => {
                let moved = if s.itemtype == o.itemtype {
                    if room(stackable, s.count) < o.count {
                        room(stackable, s.count)
                    } else {
                        o.count as nat
                    }
                } else {
                    0
                };
                let o2 = ItemSlot { itemtype: o.itemtype, count: (o.count - moved) as u32 };
                let first = seq![
                    Some(ItemSlot { itemtype: s.itemtype, count: (s.count + moved) as u32 }),
                ];
                let rest = stack_into(tail, stackable, o2);
                assert(st.0 =~= first + rest.0);
                lemma_total_add(first, rest.0, u);
                assert(first.drop_last() =~= Seq::<Option<ItemSlot>>::empty());
                if o2.count > 0 {
                    lemma_stack_into_totals(tail, stackable, o2, u);
                }
            },
        }
    }
}

} // verus!
