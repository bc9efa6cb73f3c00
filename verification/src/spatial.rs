//! The spatial index: the drones in the order of their x positions, and the
//! searches on it.
//!
//! A position is held as an integer key that orders as the coordinate does.

use crate::game::DroneId;
use crate::items::active_at;
use crate::lgrn::IdReg;
use vstd::prelude::*;
use vstd::seq_lib::group_to_multiset_ensures;

verus! {

/// An entry of the index: a drone and the key of its x position.
pub type Entry = (DroneId, i64);

/// The keys of the entries do not decrease.
pub open spec fn sorted_by_x(index: Seq<Entry>) -> bool {
    forall|i: int, j: int| 0 <= i <= j < index.len() ==> index[i].1 <= index[j].1
}

/// How many entries the index holds for one drone.
pub open spec fn entries_of(index: Seq<Entry>, id: DroneId) -> nat
    decreases index.len(),
{
    if index.len() == 0 {
        0
    } else {
        entries_of(index.drop_last(), id) + if index.last().0 == id {
            1nat
        } else {
            0nat
        }
    }
}

/// Every entry names an active drone and holds the key of its x position.
pub open spec fn entries_current(index: Seq<Entry>, active: Seq<bool>, xs: Seq<i64>) -> bool {
    forall|i: int|
        0 <= i < index.len() ==> {
            &&& active_at(active, (#[trigger] index[i]).0.0 as int)
            &&& index[i].0.0 < xs.len()
            &&& index[i].1 == xs[index[i].0.0 as int]
        }
}

proof fn lemma_entries_take_step(index: Seq<Entry>, id: DroneId, i: int)
    requires
        0 <= i < index.len(),
    ensures
        entries_of(index.take(i + 1), id) == entries_of(index.take(i), id) + if index[i].0 == id {
            1nat
        } else {
            0nat
        },
{
    assert(index.take(i + 1).drop_last() =~= index.take(i));
}

proof fn lemma_entries_update(index: Seq<Entry>, id: DroneId, i: int, e: Entry)
    requires
        0 <= i < index.len(),
    ensures
        entries_of(index.update(i, e), id) + (if index[i].0 == id {
            1nat
        } else {
            0nat
        }) == entries_of(index, id) + (if e.0 == id {
            1nat
        } else {
            0nat
        }),
    decreases index.len(),
{
    if i == index.len() - 1 {
        assert(index.update(i, e).drop_last() =~= index.drop_last());
    } else {
        assert(index.update(i, e).drop_last() =~= index.drop_last().update(i, e));
        lemma_entries_update(index.drop_last(), id, i, e);
    }
}

/// Where every entry is current, the entries of a drone are the copies of
/// one value.
proof fn lemma_entries_count(index: Seq<Entry>, active: Seq<bool>, xs: Seq<i64>, id: DroneId)
    requires
        entries_current(index, active, xs),
        id.0 < xs.len(),
    ensures
        entries_of(index, id) == index.to_multiset().count((id, xs[id.0 as int])),
    decreases index.len(),
{
    broadcast use group_to_multiset_ensures;

    if index.len() == 0 {
        assert(index.to_multiset().len() == 0);
    } else {
        let front = index.drop_last();
        assert(entries_current(front, active, xs)) by {
            assert forall|i: int| 0 <= i < front.len() implies {
                &&& active_at(active, (#[trigger] front[i]).0.0 as int)
                &&& front[i].0.0 < xs.len()
                &&& front[i].1 == xs[front[i].0.0 as int]
            } by {
                assert(front[i] == index[i]);
            }
        }
        lemma_entries_count(front, active, xs, id);
        assert(index =~= front.push(index.last()));
        assert(index.to_multiset() =~= front.to_multiset().insert(index.last()));
        let e = index[index.len() - 1];
        assert(e.1 == xs[e.0.0 as int]);
    }
}

/// Drops the entries of drones that are no longer active, each by moving the
/// last entry into its place, and brings the key of every other entry up to
/// date from `xs`.
pub fn prune_index(drone_by_x: &mut Vec<Entry>, drone_ids: &IdReg<DroneId>, xs: &Vec<i64>)
    requires
        drone_ids.wf(),
        forall|i: int|
            0 <= i < old(drone_by_x)@.len() ==> (#[trigger] old(drone_by_x)@[i]).0.0
                < drone_ids@.len(),
        forall|d: int| active_at(drone_ids@, d) ==> d < xs@.len(),
    ensures
        entries_current(final(drone_by_x)@, drone_ids@, xs@),
        forall|id: DroneId|
            entries_of(final(drone_by_x)@, id) == if active_at(drone_ids@, id.0 as int) {
                entries_of(old(drone_by_x)@, id)
            } else {
                0
            },
{
    let mut lo: usize = 0;
    let mut hi: usize = drone_by_x.len();
    proof {
        assert(drone_by_x@.take(hi as int) =~= drone_by_x@);
    }
    while lo < hi
        invariant
            lo <= hi <= drone_by_x@.len(),
            drone_ids.wf(),
            forall|i: int|
                0 <= i < hi ==> (#[trigger] drone_by_x@[i]).0.0 < drone_ids@.len(),
            forall|d: int| active_at(drone_ids@, d) ==> d < xs@.len(),
            entries_current(drone_by_x@.take(lo as int), drone_ids@, xs@),
            forall|id: DroneId|
                active_at(drone_ids@, id.0 as int) ==> entries_of(drone_by_x@.take(hi as int), id)
                    == entries_of(old(drone_by_x)@, id),
        decreases hi - lo,
    {
        let entry: Entry = drone_by_x[lo];
        let ghost before = drone_by_x@;
        if !drone_ids.is_active(entry.0) {
            let last_idx: usize = hi - 1;
            let moved: Entry = drone_by_x[last_idx];
            drone_by_x[lo] = moved;
            hi = last_idx;
            proof {
                assert forall|id: DroneId| active_at(drone_ids@, id.0 as int) implies entries_of(
                    drone_by_x@.take(hi as int),
                    id,
                ) == entries_of(old(drone_by_x)@, id) by {
                    lemma_entries_take_step(before, id, hi as int);
                    if lo < hi {
                        lemma_entries_update(before.take(hi as int), id, lo as int, moved);
                        assert(drone_by_x@.take(hi as int) =~= before.take(hi as int).update(
                            lo as int,
                            moved,
                        ));
                    } else {
                        assert(drone_by_x@.take(hi as int) =~= before.take(hi as int));
                    }
                }
                assert(drone_by_x@.take(lo as int) =~= before.take(lo as int));
            }
        } else {
            proof {
                assert(IdReg::<DroneId>::index_of(entry.0) == entry.0.0);
                assert(active_at(drone_ids@, entry.0.0 as int));
            }
            let fresh: Entry = (entry.0, xs[entry.0.0]);
            drone_by_x[lo] = fresh;
            proof {
                assert forall|id: DroneId| active_at(drone_ids@, id.0 as int) implies entries_of(
                    drone_by_x@.take(hi as int),
                    id,
                ) == entries_of(old(drone_by_x)@, id) by {
                    lemma_entries_update(before.take(hi as int), id, lo as int, fresh);
                    assert(drone_by_x@.take(hi as int) =~= before.take(hi as int).update(
                        lo as int,
                        fresh,
                    ));
                }
                assert(drone_by_x@.take(lo as int + 1) =~= before.take(lo as int).push(fresh));
                assert forall|i: int| 0 <= i < lo + 1 implies {
                    &&& active_at(drone_ids@, (#[trigger] drone_by_x@.take(lo as int + 1)[i]).0.0 as int)
                    &&& drone_by_x@.take(lo as int + 1)[i].0.0 < xs@.len()
                    &&& drone_by_x@.take(lo as int + 1)[i].1 == xs@[drone_by_x@.take(
                        lo as int + 1,
                    )[i].0.0 as int]
                } by {
                    if i < lo {
                        assert(drone_by_x@.take(lo as int + 1)[i] == before.take(lo as int)[i]);
                    }
                }
            }
            lo += 1;
        }
    }
    let ghost kept = drone_by_x@.take(lo as int);
    drone_by_x.truncate(lo);
    proof {
        assert(drone_by_x@ =~= kept);
        assert forall|id: DroneId| entries_of(drone_by_x@, id) == if active_at(
            drone_ids@,
            id.0 as int,
        ) {
            entries_of(old(drone_by_x)@, id)
        } else {
            0
        } by {
            if !active_at(drone_ids@, id.0 as int) {
                lemma_entries_none(drone_by_x@, drone_ids@, xs@, id);
            }
        }
    }
}

/// An index whose entries are current holds no entry of a drone that is not
/// active.
proof fn lemma_entries_none(index: Seq<Entry>, active: Seq<bool>, xs: Seq<i64>, id: DroneId)
    requires
        entries_current(index, active, xs),
        !active_at(active, id.0 as int),
    ensures
        entries_of(index, id) == 0,
    decreases index.len(),
{
    if index.len() > 0 {
        let front = index.drop_last();
        assert(entries_current(front, active, xs)) by {
            assert forall|i: int| 0 <= i < front.len() implies {
                &&& active_at(active, (#[trigger] front[i]).0.0 as int)
                &&& front[i].0.0 < xs.len()
                &&& front[i].1 == xs[front[i].0.0 as int]
            } by {
                assert(front[i] == index[i]);
            }
        }
        lemma_entries_none(front, active, xs, id);
        assert(active_at(active, index[index.len() - 1].0.0 as int));
    }
}

/// Sorts the entries by their keys.
///
/// Calls `slice::sort_unstable_by_key` of the standard library with the key
/// of an entry as the sort key. Taken on trust: afterwards the keys do not
/// decrease, and the entries are the same as before, each as often as before.
#[verifier::external_body]
fn sort_by_key(drone_by_x: &mut Vec<Entry>)
    ensures
        sorted_by_x(final(drone_by_x)@),
        final(drone_by_x)@.to_multiset() == old(drone_by_x)@.to_multiset(),
{
    drone_by_x.sort_unstable_by_key(|entry| entry.1);
}

/// Brings the index up to date after the drones moved: drops the entries of
/// drones that are no longer active, takes the key of every other entry from
/// `xs`, and sorts the entries by their keys.
pub fn rebuild_index(drone_by_x: &mut Vec<Entry>, drone_ids: &IdReg<DroneId>, xs: &Vec<i64>)
    requires
        drone_ids.wf(),
        forall|i: int|
            0 <= i < old(drone_by_x)@.len() ==> (#[trigger] old(drone_by_x)@[i]).0.0
                < drone_ids@.len(),
        forall|d: int| active_at(drone_ids@, d) ==> d < xs@.len(),
    ensures
        sorted_by_x(final(drone_by_x)@),
        entries_current(final(drone_by_x)@, drone_ids@, xs@),
        forall|id: DroneId|
            entries_of(final(drone_by_x)@, id) == if active_at(drone_ids@, id.0 as int) {
                entries_of(old(drone_by_x)@, id)
            } else {
                0
            },
{
    prune_index(drone_by_x, drone_ids, xs);
    let ghost pruned = drone_by_x@;
    sort_by_key(drone_by_x);
    proof {
        broadcast use group_to_multiset_ensures;

        assert forall|i: int| 0 <= i < drone_by_x@.len() implies {
            &&& active_at(drone_ids@, (#[trigger] drone_by_x@[i]).0.0 as int)
            &&& drone_by_x@[i].0.0 < xs@.len()
            &&& drone_by_x@[i].1 == xs@[drone_by_x@[i].0.0 as int]
        } by {
            let e = drone_by_x@[i];
            assert(drone_by_x@.contains(e));
            assert(drone_by_x@.to_multiset().count(e) > 0);
            assert(pruned.contains(e));
            let j = choose|j: int| 0 <= j < pruned.len() && pruned[j] == e;
            assert(pruned[j] == e);
        }
        assert forall|id: DroneId| entries_of(drone_by_x@, id) == if active_at(
            drone_ids@,
            id.0 as int,
        ) {
            entries_of(old(drone_by_x)@, id)
        } else {
            0
        } by {
            if active_at(drone_ids@, id.0 as int) {
                lemma_entries_count(pruned, drone_ids@, xs@, id);
                lemma_entries_count(drone_by_x@, drone_ids@, xs@, id);
            } else {
                lemma_entries_none(drone_by_x@, drone_ids@, xs@, id);
            }
        }
    }
}

/// The first entry whose key is at least `first_x`; the number of entries
/// where there is none.
pub fn lower_bound(index: &Vec<Entry>, first_x: i64) -> (idx: usize)
    requires
        sorted_by_x(index@),
    ensures
        idx <= index@.len(),
        forall|i: int| 0 <= i < idx ==> (#[trigger] index@[i]).1 < first_x,
        forall|i: int| idx <= i < index@.len() ==> (#[trigger] index@[i]).1 >= first_x,
{
    let mut lo: usize = 0;
    let mut hi: usize = index.len();
    while lo < hi
        invariant
            lo <= hi <= index@.len(),
            sorted_by_x(index@),
            forall|i: int| 0 <= i < lo ==> (#[trigger] index@[i]).1 < first_x,
            forall|i: int| hi <= i < index@.len() ==> (#[trigger] index@[i]).1 >= first_x,
        decreases hi - lo,
    {
        let mid: usize = lo + (hi - lo) / 2;
        if index[mid].1 < first_x {
            lo = mid + 1;
        } else {
            hi = mid;
        }
    }
    lo
}

/// The entries whose keys lie in `x_lo..=x_hi`: they are the entries
/// `r.0..r.1` of the index. Found by a lower-bound search for `x_lo` and a
/// scan that stops at the first key above `x_hi`.
pub fn candidates(index: &Vec<Entry>, x_lo: i64, x_hi: i64) -> (r: (usize, usize))
    requires
        sorted_by_x(index@),
    ensures
        r.0 <= r.1 <= index@.len(),
        forall|i: int|
            0 <= i < index@.len() ==> ((r.0 <= i < r.1) <==> (x_lo <= (#[trigger] index@[i]).1
                <= x_hi)),
{
    let start: usize = lower_bound(index, x_lo);
    let n: usize = index.len();
    let mut end: usize = start;
    while end < n && index[end].1 <= x_hi
        invariant
            start <= end <= n,
            n == index@.len(),
            sorted_by_x(index@),
            forall|i: int| start <= i < end ==> (#[trigger] index@[i]).1 <= x_hi,
        decreases n - end,
    {
        end += 1;
    }
    (start, end)
}

/// Whether the drone of an entry lies strictly inside the box.
pub open spec fn in_box(e: Entry, ys: Seq<i64>, x_lo: i64, x_hi: i64, y_lo: i64, y_hi: i64) -> bool {
    &&& x_lo < e.1 < x_hi
    &&& y_lo < ys[e.0.0 as int] < y_hi
}

/// The first entry of the index, in the order of the keys, whose drone lies
/// strictly inside the box `x_lo..x_hi` by `y_lo..y_hi`; `ys` holds the keys
/// of the y positions by drone. The search starts at the lower bound of
/// `x_lo` and stops at the first key above `x_hi`.
pub fn first_in_box(index: &Vec<Entry>, ys: &Vec<i64>, x_lo: i64, x_hi: i64, y_lo: i64, y_hi: i64) -> (r:
    Option<usize>)
    requires
        sorted_by_x(index@),
        forall|i: int| 0 <= i < index@.len() ==> (#[trigger] index@[i]).0.0 < ys@.len(),
    ensures
        match r {
            Some(i) => {
                &&& i < index@.len()
                &&& in_box(index@[i as int], ys@, x_lo, x_hi, y_lo, y_hi)
                &&& forall|j: int|
                    0 <= j < i ==> !in_box(#[trigger] index@[j], ys@, x_lo, x_hi, y_lo, y_hi)
            },
            None => forall|j: int|
                0 <= j < index@.len() ==> !in_box(#[trigger] index@[j], ys@, x_lo, x_hi, y_lo, y_hi),
        },
{
    let mut idx: usize = lower_bound(index, x_lo);
    let n: usize = index.len();
    while idx < n
        invariant
            idx <= n,
            n == index@.len(),
            sorted_by_x(index@),
            forall|i: int| 0 <= i < index@.len() ==> (#[trigger] index@[i]).0.0 < ys@.len(),
            forall|j: int|
                0 <= j < idx ==> !in_box(#[trigger] index@[j], ys@, x_lo, x_hi, y_lo, y_hi),
        decreases n - idx,
    {
        let entry: Entry = index[idx];
        if x_hi < entry.1 {
            return None;
        }
        let y: i64 = ys[entry.0.0];
        if x_lo < entry.1 && entry.1 < x_hi && y_lo < y && y < y_hi {
            return Some(idx);
        }
        idx += 1;
    }
    None
}

/// All the entries of the index whose drones lie strictly inside the box,
/// as their places in the index, in ascending order. The search starts at
/// the lower bound of `x_lo` and stops at the first key above `x_hi`; what it
/// finds is what a look at every entry finds.
pub fn all_in_box(index: &Vec<Entry>, ys: &Vec<i64>, x_lo: i64, x_hi: i64, y_lo: i64, y_hi: i64) -> (r:
    Vec<usize>)
    requires
        sorted_by_x(index@),
        forall|i: int| 0 <= i < index@.len() ==> (#[trigger] index@[i]).0.0 < ys@.len(),
    ensures
        forall|k: int|
            0 <= k < r@.len() ==> (#[trigger] r@[k]) < index@.len() && in_box(
                index@[r@[k] as int],
                ys@,
                x_lo,
                x_hi,
                y_lo,
                y_hi,
            ),
        forall|k: int, l: int| 0 <= k < l < r@.len() ==> r@[k] < r@[l],
        forall|j: int|
            0 <= j < index@.len() && in_box(#[trigger] index@[j], ys@, x_lo, x_hi, y_lo, y_hi)
                ==> r@.contains(j as usize),
{
    let mut found: Vec<usize> = Vec::new();
    let mut idx: usize = lower_bound(index, x_lo);
    let n: usize = index.len();
    while idx < n && index[idx].1 <= x_hi
        invariant
            idx <= n,
            n == index@.len(),
            sorted_by_x(index@),
            forall|i: int| 0 <= i < index@.len() ==> (#[trigger] index@[i]).0.0 < ys@.len(),
            forall|k: int|
                0 <= k < found@.len() ==> (#[trigger] found@[k]) < idx && in_box(
                    index@[found@[k] as int],
                    ys@,
                    x_lo,
                    x_hi,
                    y_lo,
                    y_hi,
                ),
            forall|k: int, l: int| 0 <= k < l < found@.len() ==> found@[k] < found@[l],
            forall|j: int|
                0 <= j < idx && in_box(#[trigger] index@[j], ys@, x_lo, x_hi, y_lo, y_hi)
                    ==> found@.contains(j as usize),
        decreases n - idx,
    {
        let entry: Entry = index[idx];
        let y: i64 = ys[entry.0.0];
        let ghost before = found@;
        if x_lo < entry.1 && entry.1 < x_hi && y_lo < y && y < y_hi {
            found.push(idx);
            proof {
                assert(found@[found@.len() - 1] == idx);
            }
        }
        proof {
            assert forall|j: int|
                0 <= j < idx + 1 && in_box(
                    #[trigger] index@[j],
                    ys@,
                    x_lo,
                    x_hi,
                    y_lo,
                    y_hi,
                ) implies found@.contains(j as usize) by {
                if j < idx {
                    assert(before.contains(j as usize));
                    let k = choose|k: int| 0 <= k < before.len() && before[k] == j as usize;
                    assert(found@[k] == j as usize);
                } else {
                    assert(found@[found@.len() - 1] == j as usize);
                }
            }
        }
        idx += 1;
    }
    proof {
        assert forall|j: int|
            0 <= j < index@.len() && in_box(
                #[trigger] index@[j],
                ys@,
                x_lo,
                x_hi,
                y_lo,
                y_hi,
            ) implies found@.contains(j as usize) by {
            if j >= idx {
                assert(index@[idx as int].1 <= index@[j].1);
            }
        }
    }
    found
}

/// Whether the keys of the entries do not decrease.
pub fn is_sorted(index: &Vec<Entry>) -> (r: bool)
    ensures
        r == sorted_by_x(index@),
{
    let n: usize = index.len();
    if n == 0 {
        return true;
    }
    let mut i: usize = 1;
    while i < n
        invariant
            1 <= i <= n,
            n == index@.len(),
            forall|a: int, b: int| 0 <= a <= b < i ==> index@[a].1 <= index@[b].1,
        decreases n - i,
    {
        if index[i - 1].1 > index[i].1 {
            return false;
        }
        proof {
            assert forall|a: int, b: int| 0 <= a <= b < i + 1 implies index@[a].1
                <= index@[b].1 by {
                if b == i && a < i {
                    assert(index@[a].1 <= index@[i - 1].1);
                }
            }
        }
        i += 1;
    }
    true
}

} // verus!
