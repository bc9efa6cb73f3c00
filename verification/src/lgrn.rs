//! Handle registry: a bitmap of free slots, and iteration over its bits.

use core::marker::PhantomData;
use vstd::prelude::*;
use vstd::std_specs::bits::axiom_u64_trailing_zeros;
use vstd::std_specs::convert::FromSpec;
use vstd::std_specs::convert::IntoSpec;

verus! {

/// A bitmap, 64 bits to the word, lowest bit first.
pub type BitVec = Vec<u64>;

/// Bit `j` of a single word, lowest bit first.
pub open spec fn word_bit(w: u64, j: u64) -> bool {
    (w >> j) & 1 == 1
}

/// Bit `pos` of a bitmap stored as 64-bit words.
pub open spec fn bit_at(bits: Seq<u64>, pos: int) -> bool {
    word_bit(bits[pos / 64], (pos % 64) as u64)
}

proof fn lemma_word_set(w: u64, i: u64, j: u64)
    by (bit_vector)
    requires
        i < 64,
        j < 64,
    ensures
        (((w | (1u64 << i)) >> j) & 1 == 1) == (j == i || ((w >> j) & 1 == 1)),
{
}

proof fn lemma_word_clear(w: u64, i: u64, j: u64)
    by (bit_vector)
    requires
        i < 64,
        j < 64,
    ensures
        (((w & !(1u64 << i)) >> j) & 1 == 1) == (j != i && ((w >> j) & 1 == 1)),
{
}

proof fn lemma_word_test(w: u64, i: u64)
    by (bit_vector)
    requires
        i < 64,
    ensures
        (w & (1u64 << i) != 0) == ((w >> i) & 1 == 1),
{
}

proof fn lemma_word_not(w: u64, j: u64)
    by (bit_vector)
    requires
        j < 64,
    ensures
        (((!w) >> j) & 1 == 1) == !((w >> j) & 1 == 1),
{
}

proof fn lemma_word_not_full(v: u64)
    by (bit_vector)
    ensures
        v != 0xffff_ffff_ffff_ffffu64 ==> !v != 0,
{
}

proof fn lemma_word_zero(j: u64)
    by (bit_vector)
    requires
        j < 64,
    ensures
        (0u64 >> j) & 1 == 0,
{
}

proof fn lemma_word_full(j: u64)
    by (bit_vector)
    requires
        j < 64,
    ensures
        (0xffff_ffff_ffff_ffffu64 >> j) & 1 == 1,
{
}

proof fn lemma_word_drop_lowest(b: u64, t: u64, j: u64)
    by (bit_vector)
    requires
        t < 64,
        j < 64,
        (b >> t) & 1 == 1,
        b << ((64 - t) as u64) == 0,
    ensures
        (((b & ((b - 1) as u64)) >> j) & 1 == 1) == (j != t && ((b >> j) & 1 == 1)),
        j < t ==> (b >> j) & 1 == 0,
{
}

/// Sets bit `pos`.
pub fn bitvec_set(bitvec: &mut Vec<u64>, pos: usize)
    requires
        pos < old(bitvec).len() * 64,
    ensures
        final(bitvec).len() == old(bitvec).len(),
        forall|p: int|
            0 <= p < old(bitvec).len() * 64 ==> #[trigger] bit_at(final(bitvec)@, p) == (p == pos
                || bit_at(old(bitvec)@, p)),
{
    let idx: usize = pos / 64;
    let sh: u64 = (pos % 64) as u64;
    let w: u64 = bitvec[idx];
    bitvec[idx] = w | (1u64 << sh);
    proof {
        assert forall|p: int| 0 <= p < old(bitvec).len() * 64 implies #[trigger] bit_at(
            bitvec@,
            p,
        ) == (p == pos || bit_at(old(bitvec)@, p)) by {
            if p / 64 == idx as int {
                lemma_word_set(w, sh, (p % 64) as u64);
            }
        }
    }
}

/// Clears bit `pos`.
pub fn bitvec_clear(bitvec: &mut Vec<u64>, pos: usize)
    requires
        pos < old(bitvec).len() * 64,
    ensures
        final(bitvec).len() == old(bitvec).len(),
        forall|p: int|
            0 <= p < old(bitvec).len() * 64 ==> #[trigger] bit_at(final(bitvec)@, p) == (p != pos
                && bit_at(old(bitvec)@, p)),
{
    let idx: usize = pos / 64;
    let sh: u64 = (pos % 64) as u64;
    let w: u64 = bitvec[idx];
    bitvec[idx] = w & !(1u64 << sh);
    proof {
        assert forall|p: int| 0 <= p < old(bitvec).len() * 64 implies #[trigger] bit_at(
            bitvec@,
            p,
        ) == (p != pos && bit_at(old(bitvec)@, p)) by {
            if p / 64 == idx as int {
                lemma_word_clear(w, sh, (p % 64) as u64);
            }
        }
    }
}

/// Clears every bit; the number of words stays.
pub fn bitvec_clear_all(bitvec: &mut Vec<u64>)
    ensures
        final(bitvec).len() == old(bitvec).len(),
        forall|i: int| 0 <= i < final(bitvec).len() ==> final(bitvec)[i] == 0,
        forall|p: int| 0 <= p < old(bitvec).len() * 64 ==> !#[trigger] bit_at(final(bitvec)@, p),
{
    let n: usize = bitvec.len();
    let mut i: usize = 0;
    while i < n
        invariant
            i <= n,
            bitvec.len() == n,
            forall|k: int| 0 <= k < i ==> bitvec[k] == 0,
        decreases n - i,
    {
        bitvec[i] = 0;
        i += 1;
    }
    proof {
        assert forall|p: int| 0 <= p < n * 64 implies !#[trigger] bit_at(bitvec@, p) by {
            lemma_word_zero((p % 64) as u64);
        }
    }
}

/// Reads bit `pos`.
pub fn bitvec_test(bitvec: &Vec<u64>, pos: usize) -> (r: bool)
    requires
        pos < bitvec.len() * 64,
    ensures
        r == bit_at(bitvec@, pos as int),
{
    let sh: u64 = (pos % 64) as u64;
    let w: u64 = bitvec[pos / 64];
    proof {
        lemma_word_test(w, sh);
    }
    w & (1u64 << sh) != 0
}

/// Walks the positions of the set bits of a bitmap in ascending order; with
/// `INVERT`, the positions of the clear bits.
pub struct BitIt<'a, const INVERT: bool> {
    slice: &'a [u64],
    distance: usize,
    block: u64,
}

impl<'a, const INVERT: bool> BitIt<'a, INVERT> {
    /// The bitmap that is walked.
    pub closed spec fn bits(&self) -> Seq<u64> {
        self.slice@
    }

    /// Whether the walk reports position `p` at all.
    pub open spec fn selects(&self, p: int) -> bool {
        0 <= p < self.bits().len() * 64 && bit_at(self.bits(), p) != INVERT
    }

    /// Whether position `p` is still to be reported.
    pub closed spec fn pending(&self, p: int) -> bool {
        ||| self.distance <= p < self.distance + 64 && word_bit(
            self.block,
            (p - self.distance) as u64,
        )
        ||| self.distance + 64 <= p && self.selects(p)
    }

    spec fn wf_cursor(&self) -> bool {
        &&& self.slice@.len() * 64 <= usize::MAX
        &&& self.distance % 64 == 0
        &&& self.slice@.len() == 0 ==> self.distance == 0 && self.block == 0
        &&& self.slice@.len() > 0 ==> self.distance / 64 < self.slice@.len()
        &&& forall|j: u64|
            j < 64 && #[trigger] word_bit(self.block, j) ==> self.selects(self.distance + j)
    }

    /// The cursor is consistent with the bitmap: what is pending is selected,
    /// and an empty current word means that nothing is pending.
    pub closed spec fn wf(&self) -> bool {
        &&& self.wf_cursor()
        &&& self.block == 0 ==> forall|p: int| self.distance + 64 <= p ==> !self.selects(p)
    }

    /// A pending position is a selected one.
    pub proof fn lemma_pending_selects(&self, p: int)
        requires
            self.wf(),
            self.pending(p),
        ensures
            self.selects(p),
    {
        if self.distance <= p < self.distance + 64 {
            let j = (p - self.distance) as u64;
            assert(word_bit(self.block, j));
            assert(self.selects(self.distance + j));
        }
    }

    fn empty_block() -> (r: u64)
        ensures
            r == (if INVERT { 0xffff_ffff_ffff_ffffu64 } else { 0u64 }),
    {
        if INVERT {
            0xffff_ffff_ffff_ffffu64
        } else {
            0x0u64
        }
    }

    /// Moves to the next word that holds a selected bit, if the current one is used up.
    fn next_block(&mut self)
        requires
            old(self).wf_cursor(),
        ensures
            final(self).wf(),
            final(self).bits() == old(self).bits(),
            forall|p: int| final(self).pending(p) == old(self).pending(p),
    {
        if self.block != 0 {
            proof {
                lemma_word_zero(0);
            }
            return ;
        }
        let n: usize = self.slice.len();
        let empty: u64 = Self::empty_block();
        let mut i: usize = self.distance / 64 + 1;
        if n == 0 {
            proof {
                assert forall|j: u64| j < 64 implies !#[trigger] word_bit(0u64, j) by {
                    lemma_word_zero(j);
                }
            }
            return ;
        }
        while i < n
            invariant
                *self == *old(self),
                self.wf_cursor(),
                self.block == 0,
                n == self.slice@.len(),
                n * 64 <= usize::MAX,
                self.distance / 64 < i <= n,
                self.distance % 64 == 0,
                empty == (if INVERT { 0xffff_ffff_ffff_ffffu64 } else { 0u64 }),
                forall|p: int| self.distance + 64 <= p < i * 64 ==> !self.selects(p),
            decreases n - i,
        {
            let v: u64 = self.slice[i];
            if v != empty {
                let ghost before = *self;
                let blk: u64 = if INVERT {
                    !v
                } else {
                    v
                };
                self.block = blk;
                self.distance = i * 64;
                proof {
                    lemma_word_not_full(v);
                    assert forall|j: u64| j < 64 implies (#[trigger] word_bit(blk, j)
                        == self.selects(self.distance + j)) by {
                        lemma_word_not(v, j);
                        assert((self.distance + j) / 64 == i as int);
                        assert((self.distance + j) % 64 == j as int);
                    }
                    assert forall|j: u64| j < 64 implies !#[trigger] word_bit(0u64, j) by {
                        lemma_word_zero(j);
                    }
                    assert forall|p: int| self.pending(p) == before.pending(p) by {
                        if self.distance <= p < self.distance + 64 {
                            let j = (p - self.distance) as u64;
                            assert(word_bit(blk, j) == self.selects(self.distance + j));
                        }
                        if before.distance <= p < before.distance + 64 {
                            assert(!word_bit(0u64, (p - before.distance) as u64));
                        }
                    }
                }
                return ;
            }
            proof {
                assert forall|p: int| i * 64 <= p < (i + 1) * 64 implies !self.selects(p) by {
                    let j = (p % 64) as u64;
                    assert(p / 64 == i as int);
                    lemma_word_zero(j);
                    lemma_word_full(j);
                }
            }
            i += 1;
        }
    }

    /// Reports the lowest pending position and moves past it.
    pub fn next(&mut self) -> (r: Option<usize>)
        requires
            old(self).wf(),
        ensures
            final(self).wf(),
            final(self).bits() == old(self).bits(),
            match r {
                Some(p) => {
                    &&& old(self).pending(p as int)
                    &&& forall|q: int| old(self).pending(q) ==> p <= q
                    &&& forall|q: int| final(self).pending(q) == (old(self).pending(q) && q != p)
                },
                None => {
                    &&& forall|q: int| !old(self).pending(q)
                    &&& forall|q: int| !final(self).pending(q)
                },
            },
    {
        if self.block == 0 {
            proof {
                assert forall|q: int| !self.pending(q) by {
                    if self.distance <= q < self.distance + 64 {
                        lemma_word_zero((q - self.distance) as u64);
                    }
                }
            }
            return None;
        }
        let ghost before = *self;
        let blk: u64 = self.block;
        let tz: u32 = blk.trailing_zeros();
        proof {
            axiom_u64_trailing_zeros(blk);
            assert(word_bit(blk, tz as u64));
            assert(self.selects(self.distance + tz as u64));
        }
        let out: usize = self.distance + tz as usize;
        self.block = blk & blk.wrapping_sub(1);
        proof {
            assert(self.block == blk & ((blk - 1) as u64));
            assert forall|j: u64| j < 64 implies (#[trigger] word_bit(self.block, j) == (j
                != tz as u64 && word_bit(blk, j))) && (j < tz as u64 ==> !word_bit(blk, j)) by {
                lemma_word_drop_lowest(blk, tz as u64, j);
            }
            assert forall|q: int| self.pending(q) == (before.pending(q) && q != out) by {
                if self.distance <= q < self.distance + 64 {
                    let j = (q - self.distance) as u64;
                    assert(word_bit(self.block, j) == (j != tz as u64 && word_bit(blk, j)));
                }
            }
            assert forall|q: int| before.pending(q) implies out <= q by {
                if self.distance <= q < self.distance + 64 {
                    let j = (q - self.distance) as u64;
                    assert(j < tz as u64 ==> !word_bit(blk, j));
                }
            }
        }
        self.next_block();
        Some(out)
    }
}

/// Walks the set bits of `slice`.
pub fn bitslice_it<'a>(slice: &'a [u64]) -> (it: BitIt<'a, false>)
    requires
        slice@.len() * 64 <= usize::MAX,
    ensures
        it.wf(),
        it.bits() == slice@,
        forall|p: int| it.pending(p) == it.selects(p),
{
    if slice.is_empty() {
        let it = BitIt { slice, distance: 0, block: 0 };
        proof {
            assert forall|j: u64| j < 64 implies !#[trigger] word_bit(0u64, j) by {
                lemma_word_zero(j);
            }
        }
        it
    } else {
        let mut it = BitIt { slice, distance: 0, block: slice[0] };
        proof {
            assert forall|p: int| it.pending(p) == it.selects(p) by {
                if 0 <= p < 64 {
                    assert(p / 64 == 0 && p % 64 == p);
                }
            }
        }
        it.next_block();
        it
    }
}

/// Walks the clear bits of `slice`.
pub fn bitslice_it_invert<'a>(slice: &'a [u64]) -> (it: BitIt<'a, true>)
    requires
        slice@.len() * 64 <= usize::MAX,
    ensures
        it.wf(),
        it.bits() == slice@,
        forall|p: int| it.pending(p) == it.selects(p),
{
    if slice.is_empty() {
        let it = BitIt { slice, distance: 0, block: 0 };
        proof {
            assert forall|j: u64| j < 64 implies !#[trigger] word_bit(0u64, j) by {
                lemma_word_zero(j);
            }
        }
        it
    } else {
        let mut it = BitIt { slice, distance: 0, block: !slice[0] };
        proof {
            assert forall|j: u64| j < 64 implies (#[trigger] word_bit(it.block, j)
                == it.selects(j as int)) by {
                lemma_word_not(slice[0], j);
                assert(j as int / 64 == 0 && j as int % 64 == j);
            }
            assert forall|p: int| it.pending(p) == it.selects(p) by {
                if 0 <= p < 64 {
                    let j = p as u64;
                    assert(word_bit(it.block, j) == it.selects(j as int));
                }
            }
        }
        it.next_block();
        it
    }
}

/// Whether some slot of an occupancy sequence is free.
pub open spec fn has_free(s: Seq<bool>) -> bool {
    exists|i: int| 0 <= i < s.len() && !s[i]
}

/// Whether `p` is the lowest free slot of an occupancy sequence.
pub open spec fn is_first_free(s: Seq<bool>, p: int) -> bool {
    &&& 0 <= p < s.len()
    &&& !s[p]
    &&& forall|j: int| 0 <= j < p ==> s[j]
}

/// The number of slots that a registry resized to `capacity` holds: whole words.
pub open spec fn slots_for(capacity: int) -> int {
    (capacity + 63) / 64 * 64
}

/// An occupancy sequence cut or extended to `n` slots, new slots free.
pub open spec fn resized(s: Seq<bool>, n: int) -> Seq<bool> {
    Seq::new(n as nat, |i: int| i < s.len() && s[i])
}

/// The slot that `create_resize` hands out on an occupancy sequence: the
/// lowest free one, or the first new one where none is free.
pub open spec fn is_next_slot(active: Seq<bool>, p: int) -> bool {
    is_first_free(active, p) || (!has_free(active) && p == active.len())
}

/// The occupancy after `create_resize` handed out slot `p`.
pub open spec fn with_next_slot(active: Seq<bool>, p: int) -> Seq<bool> {
    if has_free(active) {
        active.update(p, true)
    } else {
        resized(active, (active.len() * 2) as int).update(p, true)
    }
}

/// Where some slot is free there is a lowest free slot.
pub proof fn lemma_first_free_exists(active: Seq<bool>, q: int)
    requires
        0 <= q < active.len(),
        !active[q],
    ensures
        exists|f: int| is_first_free(active, f),
    decreases q,
{
    if forall|j: int| 0 <= j < q ==> active[j] {
        assert(is_first_free(active, q));
    } else {
        let j = choose|j: int| 0 <= j < q && !active[j];
        lemma_first_free_exists(active, j);
    }
}

/// Hands out and takes back the handles of one kind of entity. A set bit marks
/// a free slot. The view is the occupancy of each slot: `true` where a handle
/// is active.
pub struct IdReg<T> {
    data: BitVec,
    phantom: PhantomData<T>,
}

impl<T> View for IdReg<T> {
    type V = Seq<bool>;

    closed spec fn view(&self) -> Seq<bool> {
        Seq::new(self.data@.len() * 64, |i: int| !bit_at(self.data@, i))
    }
}

impl<T> Default for IdReg<T> {
    fn default() -> (r: Self)
        ensures
            r@.len() == 0,
            r.wf(),
    {
        IdReg { data: Vec::new(), phantom: PhantomData }
    }
}

impl<T> IdReg<T> {
    /// Every slot can be named by a `usize`.
    pub closed spec fn wf(&self) -> bool {
        self.data@.len() * 64 <= usize::MAX
    }

    /// The slots of a well-formed registry can be counted in a `usize`.
    pub proof fn lemma_len_fits(&self)
        requires
            self.wf(),
        ensures
            self@.len() <= usize::MAX,
    {
    }

    /// The words of the free-slot bitmap: bit `i` is set where slot `i` is free.
    pub fn words(&self) -> (r: &Vec<u64>)
        ensures
            r@.len() * 64 == self@.len(),
            forall|p: int| 0 <= p < self@.len() ==> bit_at(r@, p) == !self@[p],
    {
        &self.data
    }
}

impl<T: Into<usize> + From<usize> + Copy> IdReg<T> {
    /// The slot that a handle names.
    pub open spec fn index_of(id: T) -> usize {
        <T as IntoSpec<usize>>::into_spec(id)
    }

    /// The handle that names a slot.
    pub open spec fn handle_of(p: int) -> T {
        <T as FromSpec<usize>>::from_spec(p as usize)
    }

    /// The handle type converts to and from slot numbers as its specification says.
    pub open spec fn handles_obey() -> bool {
        &&& <T as IntoSpec<usize>>::obeys_into_spec()
        &&& <T as FromSpec<usize>>::obeys_from_spec()
    }

    /// Takes the lowest free slot, if there is one.
    #[must_use]
    pub fn create(&mut self) -> (r: Option<T>)
        requires
            old(self).wf(),
        ensures
            final(self).wf(),
            r is Some <==> has_free(old(self)@),
            r is None ==> final(self)@ == old(self)@,
            forall|p: int|
                is_first_free(old(self)@, p) ==> {
                    &&& final(self)@ == old(self)@.update(p, true)
                    &&& Self::handles_obey() ==> r == Some(Self::handle_of(p))
                },
    {
        let mut it = bitslice_it(self.data.as_slice());
        let ghost start = it;
        match it.next() {
            None => {
                proof {
                    assert forall|i: int| 0 <= i < self@.len() implies self@[i] by {
                        assert(!start.pending(i));
                    }
                }
                None
            },
            Some(pos) => {
                proof {
                    start.lemma_pending_selects(pos as int);
                    assert(!self@[pos as int]);
                    assert forall|j: int| 0 <= j < pos implies self@[j] by {
                        if !self@[j] {
                            assert(start.selects(j));
                            assert(start.pending(j));
                        }
                    }
                }
                bitvec_clear(&mut self.data, pos);
                proof {
                    assert(self@ =~= old(self)@.update(pos as int, true));
                }
                Some(T::from(pos))
            },
        }
    }

    /// Takes the lowest free slot; where none is free, doubles the capacity first.
    #[must_use]
    pub fn create_resize(&mut self) -> (r: T)
        requires
            old(self).wf(),
            old(self)@.len() > 0,
            old(self)@.len() * 2 <= usize::MAX - 63,
        ensures
            final(self).wf(),
            forall|p: int|
                is_first_free(old(self)@, p) ==> {
                    &&& final(self)@ == old(self)@.update(p, true)
                    &&& Self::handles_obey() ==> r == Self::handle_of(p)
                },
            !has_free(old(self)@) ==> {
                &&& final(self)@ == resized(old(self)@, (old(self)@.len() * 2) as int).update(
                    old(self)@.len() as int,
                    true,
                )
                &&& Self::handles_obey() ==> r == Self::handle_of(old(self)@.len() as int)
            },
            exists|p: int|
                {
                    &&& #[trigger] is_next_slot(old(self)@, p)
                    &&& final(self)@ == with_next_slot(old(self)@, p)
                    &&& Self::handles_obey() ==> r == Self::handle_of(p)
                },
    {
        proof {
            if has_free(self@) {
                let q = choose|q: int| 0 <= q < self@.len() && !self@[q];
                lemma_first_free_exists(self@, q);
                let f = choose|f: int| is_first_free(self@, f);
                assert(is_next_slot(self@, f));
            } else {
                assert(is_next_slot(self@, self@.len() as int));
            }
        }
        if let Some(id) = self.create() {
            return id;
        } else {
            let cap: usize = self.capacity();
            self.resize(cap * 2);
            proof {
                assert(slots_for(cap * 2) == cap * 2);
                assert(is_first_free(self@, cap as int));
            }
            return self.create().unwrap();
        }
    }

    /// The number of slots.
    pub fn capacity(&self) -> (r: usize)
        requires
            self.wf(),
        ensures
            r == self@.len(),
    {
        self.data.len() * 64
    }

    /// Sets the number of slots to `capacity` rounded up to whole words. Slots
    /// that stay keep their state; new slots are free.
    pub fn resize(&mut self, capacity: usize)
        requires
            capacity <= usize::MAX - 63,
        ensures
            final(self).wf(),
            final(self)@ == resized(old(self)@, slots_for(capacity as int)),
    {
        let words: usize = capacity / 64 + (if capacity % 64 != 0 { 1usize } else { 0usize });
        self.data.resize(words, u64::MAX);
        proof {
            assert(words * 64 == slots_for(capacity as int));
            assert forall|i: int| 0 <= i < words * 64 implies #[trigger] self@[i] == (i < old(
                self,
            )@.len() && old(self)@[i]) by {
                if i / 64 < old(self).data@.len() {
                    assert(self.data@[i / 64] == old(self).data@.subrange(
                        0,
                        if words <= old(self).data@.len() { words as int } else { old(self).data@.len() as int },
                    )[i / 64]);
                } else {
                    assert(self.data@[i / 64] == 0xffff_ffff_ffff_ffffu64);
                    lemma_word_full((i % 64) as u64);
                }
            }
            assert(self@ =~= resized(old(self)@, slots_for(capacity as int)));
        }
    }

    /// Whether the handle is active.
    pub fn is_active(&self, id: T) -> (r: bool)
        requires
            self.wf(),
            Self::handles_obey(),
            Self::index_of(id) < self@.len(),
        ensures
            r == self@[Self::index_of(id) as int],
    {
        let pos: usize = id.into();
        return !bitvec_test(&self.data, pos);
    }

    /// Walks the active handles in ascending order.
    pub fn iter_ids<'a>(&'a self) -> (it: IdIt<'a, T>)
        requires
            self.wf(),
        ensures
            it.wf(),
            forall|p: int| it.pending(p) == (0 <= p < self@.len() && self@[p]),
    {
        IdIt(bitslice_it_invert(self.data.as_slice()), PhantomData)
    }

    /// Walks the active handles in ascending order.
    pub fn iter_ids_mut<'a>(&'a self) -> (it: IdIt<'a, T>)
        requires
            self.wf(),
        ensures
            it.wf(),
            forall|p: int| it.pending(p) == (0 <= p < self@.len() && self@[p]),
    {
        IdIt(bitslice_it_invert(self.data.as_slice()), PhantomData)
    }

    /// Frees the handle's slot. Returns whether the handle was active.
    pub fn remove(&mut self, id: T) -> (r: bool)
        requires
            old(self).wf(),
            Self::handles_obey(),
            Self::index_of(id) < old(self)@.len(),
        ensures
            final(self).wf(),
            r == old(self)@[Self::index_of(id) as int],
            final(self)@ == old(self)@.update(Self::index_of(id) as int, false),
    {
        let was_free: bool = bitvec_test(&self.data, id.into());
        bitvec_set(&mut self.data, id.into());
        proof {
            assert(self@ =~= old(self)@.update(Self::index_of(id) as int, false));
        }
        !was_free
    }
}

/// Walks the active handles of a registry in ascending order.
pub struct IdIt<'a, T>(BitIt<'a, true>, PhantomData<T>);

impl<'a, T: From<usize>> IdIt<'a, T> {
    /// The walk is consistent with its registry.
    pub closed spec fn wf(&self) -> bool {
        self.0.wf()
    }

    /// Whether the handle of slot `p` is still to be reported.
    pub closed spec fn pending(&self, p: int) -> bool {
        self.0.pending(p)
    }

    /// Reports the lowest pending handle and moves past it.
    pub fn next(&mut self) -> (r: Option<T>)
        requires
            old(self).wf(),
        ensures
            final(self).wf(),
            r is Some <==> exists|p: int| old(self).pending(p),
            r is None ==> forall|q: int| !final(self).pending(q),
            forall|p: int|
                old(self).pending(p) && (forall|q: int| old(self).pending(q) ==> p <= q) ==> {
                    &&& 0 <= p <= usize::MAX
                    &&& <T as FromSpec<usize>>::obeys_from_spec() ==> r == Some(
                        <T as FromSpec<usize>>::from_spec(p as usize),
                    )
                    &&& forall|q: int| final(self).pending(q) == (old(self).pending(q) && q != p)
                },
    {
        match self.0.next() {
            None => None,
            Some(pos) => {
                proof {
                    assert(old(self).pending(pos as int));
                    assert forall|p: int|
                        old(self).pending(p) && (forall|q: int|
                            old(self).pending(q) ==> p <= q) implies p == pos by {
                        assert(old(self).0.pending(p));
                        assert(old(self).pending(pos as int) ==> p <= pos);
                    }
                }
                Some(T::from(pos))
            },
        }
    }
}

} // verus!
