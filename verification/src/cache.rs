//! The write-combining shard cache: a small pool of slots, each buffering the
//! increments of one shard of the histogram until the shard is flushed into
//! the output counts.

use crate::address::{lemma_powers, lemma_split, local_mask, shard_base, shard_span};
use crate::laws::{
    lemma_ensure_slot, lemma_first_free_is, lemma_flush_all, lemma_flush_first, lemma_flush_slot,
    lemma_holder_is, lemma_holder_none, lemma_increment, lemma_slots_total_update, preserves,
};
use crate::metrics::{FlushReason, Metrics, MetricsModel};
use crate::model::{holds, is_first_free, CacheModel, KernelModel, SlotModel};
use crate::tally::{
    as_nats, lemma_nonzero_le_total, lemma_total_index, lemma_total_take_le, lemma_total_take_next,
    nonzero_count, scatter, total, zeros,
};
use vstd::prelude::*;

verus! {

/// Most slots that a cache can have: the shard map stores a slot as its
/// index plus one in a byte, with zero for "no slot".
pub const MAX_SLOTS: usize = 255;

/// One physical write-combining buffer: the shard it holds and whether it was
/// written since it was last emptied.
#[derive(Clone, Copy, Debug)]
pub struct ShardSlot {
    id: Option<usize>,
    used: bool,
}

/// A cache that groups histogram writes into shard-local buffers, so that the
/// output counts are touched only when a shard leaves the cache.
pub struct ShardCache {
    shard_bits: usize,
    shard_size: usize,
    slots: Vec<ShardSlot>,
    shard_map: Vec<u8>,
    store: Vec<u32>,
    next_evict: usize,
    mask: usize,
}

/// Position of counter `o` of slot `k` in the flat counter store.
pub open spec fn flat(k: int, size: int, o: int) -> int {
    k * size + o
}

/// The buffer of a slot lies inside the store.
pub proof fn lemma_slot_extent(k: int, n: int, size: int)
    requires
        0 <= k < n,
        0 <= size,
    ensures
        0 <= k * size,
        k * size + size <= n * size,
{
    assert(0 <= k * size && k * size + size <= n * size) by (nonlinear_arith)
        requires
            0 <= k < n,
            0 <= size,
    ;
}

/// The counters of a slot lie inside its buffer.
pub proof fn lemma_flat_bounds(k: int, n: int, size: int, o: int)
    requires
        0 <= k < n,
        0 <= o < size,
    ensures
        0 <= k * size <= flat(k, size, o) < k * size + size <= n * size,
{
    lemma_slot_extent(k, n, size);
}

/// A counter of one slot lies outside the buffer of any other slot.
pub proof fn lemma_flat_apart(j: int, k: int, size: int, o: int)
    requires
        0 <= j,
        0 <= k,
        j != k,
        0 <= o < size,
    ensures
        flat(j, size, o) < k * size || flat(j, size, o) >= k * size + size,
{
    assert(j < k ==> j * size + size <= k * size) by (nonlinear_arith)
        requires
            0 <= j,
            0 <= k,
            0 <= size,
    ;
    assert(k < j ==> k * size + size <= j * size) by (nonlinear_arith)
        requires
            0 <= j,
            0 <= k,
            0 <= size,
    ;
}

/// The accumulation state that a cache, a counts buffer and the metrics make
/// up together.
pub open spec fn kernel(cache: CacheModel, counts: Seq<u32>, metrics: MetricsModel) -> KernelModel {
    KernelModel { cache, counts: as_nats(counts), metrics }
}

impl View for ShardCache {
    type V = CacheModel;

    closed spec fn view(&self) -> CacheModel {
        CacheModel {
            bits: self.shard_bits,
            size: self.shard_size as nat,
            slots: Seq::new(
                self.slots@.len(),
                |k: int|
                    SlotModel {
                        shard: self.slots@[k].id,
                        dirty: self.slots@[k].used,
                        pending: Seq::new(
                            self.shard_size as nat,
                            |o: int| self.store@[flat(k, self.shard_size as int, o)] as nat,
                        ),
                    },
            ),
            cursor: self.next_evict as nat,
        }
    }
}

impl ShardCache {
    /// The buffers have the sizes that the geometry asks for: the mask and the
    /// map follow from the bit-width, and the store has one buffer per slot.
    pub closed spec fn shaped(&self) -> bool {
        &&& self.shard_bits <= 16
        &&& self.mask == local_mask(self.shard_bits)
        &&& 1 <= self.slots@.len() <= MAX_SLOTS
        &&& self.shard_map@.len() == shard_span(self.shard_bits)
        &&& self.store@.len() == self.slots@.len() * self.shard_size
    }

    /// The cache is shaped, and the shard map names for each shard the slot
    /// that holds it, and no slot for a shard that none holds.
    pub closed spec fn wf(&self) -> bool {
        &&& self.shaped()
        &&& forall|s: int|
            0 <= s < self.shard_map@.len() && (#[trigger] self.shard_map@[s]) > 0 ==> {
                &&& self.shard_map@[s] <= self.slots@.len()
                &&& self.slots@[self.shard_map@[s] - 1].id == Some(s as usize)
            }
        &&& forall|k: int|
            0 <= k < self.slots@.len() && (#[trigger] self.slots@[k]).id is Some ==> {
                &&& self.slots@[k].id->0 < self.shard_map@.len()
                &&& self.shard_map@[self.slots@[k].id->0 as int] == k + 1
            }
    }

    /// The cache, the counts and the metrics form a state that an
    /// accumulation can be in, with room for `room` more rows in every
    /// counter.
    pub open spec fn fits(&self, counts: Seq<u32>, metrics: Metrics, room: nat) -> bool {
        &&& self.shaped()
        &&& kernel(self@, counts, metrics@).inv()
        &&& kernel(self@, counts, metrics@).load() + room <= u32::MAX
    }

    /// A cache of `slot_count` free slots (at least one) for shards of
    /// `shard_size` counters each, addressed with `shard_bits` bits.
    pub fn new(shard_bits: usize, shard_size: usize, slot_count: usize) -> (cache: ShardCache)
        requires
            shard_bits <= 16,
            slot_count <= MAX_SLOTS,
            shard_size * (if slot_count < 1 {
                1int
            } else {
                slot_count as int
            }) <= usize::MAX,
        ensures
            cache.wf(),
            cache.shaped(),
            cache@ == CacheModel::empty(
                shard_bits,
                shard_size as nat,
                if slot_count < 1 {
                    1nat
                } else {
                    slot_count as nat
                },
            ),
    {
        let slot_count: usize = if slot_count < 1 { 1 } else { slot_count };
        proof {
            if shard_bits > 0 {
                lemma_powers(shard_bits);
            }
        }
        let mask: usize = if shard_bits == 0 { usize::MAX } else { (1usize << shard_bits) - 1 };
        let shard_map_size: usize = if shard_bits == 0 { 1 } else { 1usize << (16 - shard_bits) };
        let cache = ShardCache {
            shard_bits,
            shard_size,
            slots: vec![ShardSlot { id: None, used: false }; slot_count],
            shard_map: vec![0u8; shard_map_size],
            store: vec![0u32; shard_size * slot_count],
            next_evict: 0,
            mask,
        };
        proof {
            assert(shard_size * slot_count == slot_count * shard_size) by (nonlinear_arith);
            assert(forall|k: int| 0 <= k < slot_count ==> cache.slots@[k].id is None);
            assert(forall|s: int| 0 <= s < shard_map_size ==> cache.shard_map@[s] == 0);
            assert(cache.wf());
            assert(cache@.slots =~~= CacheModel::empty(
                shard_bits,
                shard_size as nat,
                slot_count as nat,
            ).slots) by {
                assert forall|k: int, o: int| 0 <= k < slot_count && 0 <= o < shard_size implies (
                #[trigger] cache.store@[flat(k, shard_size as int, o)]) == 0 by {
                    lemma_flat_bounds(k, slot_count as int, shard_size as int, o);
                }
            }
        }
        cache
    }

    /// Puts every counter of slot `slot_index` back to zero.
    pub fn reset_slot_counts(&mut self, slot_index: usize)
        requires
            old(self).shaped(),
            slot_index < old(self)@.slots.len(),
        ensures
            final(self).shaped(),
            old(self).wf() ==> final(self).wf(),
            final(self)@ == old(self)@.with_slot(
                slot_index as int,
                SlotModel {
                    shard: old(self)@.slots[slot_index as int].shard,
                    dirty: old(self)@.slots[slot_index as int].dirty,
                    pending: zeros(old(self)@.size),
                },
            ),
    {
        proof {
            lemma_slot_extent(slot_index as int, self.slots@.len() as int, self.shard_size as int);
            assert(self.store@.len() == self.store.len());
        }
        let start: usize = slot_index * self.shard_size;
        let end: usize = start + self.shard_size;
        let mut i: usize = start;
        while i < end
            invariant
                start <= i <= end,
                end <= self.store@.len(),
                self.store@.len() == old(self).store@.len(),
                self.shard_bits == old(self).shard_bits,
                self.shard_size == old(self).shard_size,
                self.slots == old(self).slots,
                self.shard_map == old(self).shard_map,
                self.next_evict == old(self).next_evict,
                self.mask == old(self).mask,
                forall|j: int|
                    0 <= j < self.store@.len() ==> self.store@[j] == if start <= j < i {
                        0u32
                    } else {
                        old(self).store@[j]
                    },
            decreases end - i,
        {
            self.store[i] = 0;
            i += 1;
        }
        proof {
            let size = self.shard_size as int;
            let after = old(self)@.with_slot(
                slot_index as int,
                SlotModel {
                    shard: old(self)@.slots[slot_index as int].shard,
                    dirty: old(self)@.slots[slot_index as int].dirty,
                    pending: zeros(old(self)@.size),
                },
            );
            assert forall|k: int, o: int| 0 <= k < self.slots@.len() && 0 <= o < size implies (
            #[trigger] self.store@[flat(k, size, o)]) == if k == slot_index {
                0u32
            } else {
                old(self).store@[flat(k, size, o)]
            } by {
                lemma_flat_bounds(k, self.slots@.len() as int, size, o);
                if k != slot_index {
                    lemma_flat_apart(k, slot_index as int, size, o);
                }
            }
            assert(self@.slots =~~= after.slots);
        }
    }

    /// Commits what slot `slot_index` holds back into `counts`, empties the
    /// slot and counts the flush in `metrics`. A slot that is free or clean is
    /// left alone.
    pub fn flush_slot(
        &mut self,
        slot_index: usize,
        counts: &mut [u32],
        metrics: &mut Metrics,
        reason: FlushReason,
    )
        requires
            old(self).fits(old(counts)@, *old(metrics), 0),
            slot_index < old(self)@.slots.len(),
        ensures
            final(self).fits(final(counts)@, *final(metrics), 0),
            old(self).wf() ==> final(self).wf(),
            kernel(final(self)@, final(counts)@, final(metrics)@) == kernel(
                old(self)@,
                old(counts)@,
                old(metrics)@,
            ).flush_slot(slot_index as int, reason),
            preserves(
                kernel(old(self)@, old(counts)@, old(metrics)@),
                kernel(final(self)@, final(counts)@, final(metrics)@),
            ),
    {
        let ghost before = kernel(self@, counts@, metrics@);
        let ghost pending = before.cache.slots[slot_index as int].pending;
        proof {
            lemma_flush_slot(before, slot_index as int, reason);
        }
        let shard_idx = match self.slots[slot_index].id {
            Some(shard_idx) => shard_idx,
            None => {
                return ;
            },
        };
        if !self.slots[slot_index].used {
            return ;
        }
        let base_idx: usize = shard_idx << self.shard_bits;
        let mut bins_written: u32 = 0;
        let mut rows_written: u64 = 0;
        proof {
            lemma_slot_extent(slot_index as int, self.slots@.len() as int, self.shard_size as int);
            assert(self.store@.len() == self.store.len());
            lemma_slots_total_update(before.cache.slots, slot_index as int, before.cache.slots[slot_index as int]);
            assert(pending.take(0) =~= Seq::<nat>::empty());
            assert(as_nats(counts@) =~= scatter(before.counts, base_idx as int, pending.take(0)));
        }
        let start: usize = slot_index * self.shard_size;
        let mut offset: usize = 0;
        while offset < self.shard_size
            invariant
                offset <= self.shard_size,
                start == slot_index * self.shard_size,
                start + self.shard_size <= self.store@.len() <= usize::MAX,
                self.store@.len() == old(self).store@.len(),
                self.shard_bits == old(self).shard_bits,
                self.shard_size == old(self).shard_size,
                self.slots == old(self).slots,
                self.shard_map == old(self).shard_map,
                self.next_evict == old(self).next_evict,
                self.mask == old(self).mask,
                slot_index < self.slots@.len(),
                base_idx == shard_base(self.shard_bits, shard_idx),
                before == kernel(old(self)@, old(counts)@, old(metrics)@),
                before.inv(),
                before.cache.slots[slot_index as int].shard == Some(shard_idx),
                pending == before.cache.slots[slot_index as int].pending,
                pending.len() == self.shard_size,
                total(before.counts) + total(pending) <= u32::MAX,
                forall|o: int|
                    0 <= o < self.shard_size ==> pending[o] == old(self).store@[start + o] as nat,
                forall|j: int|
                    0 <= j < self.store@.len() ==> self.store@[j] == if start <= j < start + offset {
                        0u32
                    } else {
                        old(self).store@[j]
                    },
                counts@.len() == old(counts)@.len(),
                as_nats(counts@) =~= scatter(before.counts, base_idx as int, pending.take(offset as int)),
                bins_written == nonzero_count(pending.take(offset as int)),
                rows_written == total(pending.take(offset as int)),
            decreases self.shard_size - offset,
        {
            let value: u32 = self.store[start + offset];
            let ghost seen = as_nats(counts@);
            proof {
                lemma_total_take_next(pending, offset as int);
                lemma_total_take_le(pending, offset as int + 1);
                lemma_nonzero_le_total(pending.take(offset as int + 1));
                assert(value as nat == pending[offset as int]);
                assert(value != 0 ==> base_idx + offset < counts@.len()) by {
                    assert(before.cache.slots[slot_index as int].pending[offset as int] == value);
                }
            }
            if value != 0 {
                let idx: usize = base_idx + offset;
                if idx < counts.len() {
                    proof {
                        lemma_total_index(before.counts, idx as int);
                        lemma_total_index(pending, offset as int);
                        assert(as_nats(counts@)[idx as int] == before.counts[idx as int]);
                    }
                    counts[idx] += value;
                    rows_written += value as u64;
                }
                self.store[start + offset] = 0;
                bins_written += 1;
            }
            proof {
                let wider = scatter(before.counts, base_idx as int, pending.take(offset as int + 1));
                assert forall|b: int| 0 <= b < counts@.len() implies as_nats(counts@)[b]
                    == wider[b] by {
                    assert(seen[b] == scatter(
                        before.counts,
                        base_idx as int,
                        pending.take(offset as int),
                    )[b]);
                }
            }
            offset += 1;
        }
        self.slots[slot_index].used = false;
        proof {
            assert(pending.take(self.shard_size as int) =~= pending);
            lemma_nonzero_le_total(pending);
        }
        if bins_written > 0 {
            metrics.record_flush(reason, bins_written, rows_written);
        }
        proof {
            let size = self.shard_size as int;
            let after = before.flush_slot(slot_index as int, reason);
            assert forall|k: int, o: int| 0 <= k < self.slots@.len() && 0 <= o < size implies (
            #[trigger] self.store@[flat(k, size, o)]) == if k == slot_index {
                0u32
            } else {
                old(self).store@[flat(k, size, o)]
            } by {
                lemma_flat_bounds(k, self.slots@.len() as int, size, o);
                if k != slot_index {
                    lemma_flat_apart(k, slot_index as int, size, o);
                }
            }
            assert(self@.slots =~~= after.cache.slots);
            assert(as_nats(counts@) =~= after.counts);
            assert(kernel(self@, counts@, metrics@) == after);
        }
    }

    /// Handing slot `k` to a shard that the map names no slot for, with the
    /// map entry of the shard it held cleared, keeps the map and the slots in
    /// step.
    proof fn lemma_rebind(before: ShardCache, after: ShardCache, k: int, shard: usize)
        requires
            before.wf(),
            0 <= k < before.slots@.len(),
            shard < before.shard_map@.len(),
            forall|j: int| 0 <= j < before.slots@.len() ==> (#[trigger] before.slots@[j]).id != Some(shard),
            after.shard_bits == before.shard_bits,
            after.shard_size == before.shard_size,
            after.mask == before.mask,
            after.store@.len() == before.store@.len(),
            after.slots@ == before.slots@.update(k, ShardSlot { id: Some(shard), used: false }),
            after.shard_map@ == (match before.slots@[k].id {
                Some(held) => before.shard_map@.update(held as int, 0u8),
                None => before.shard_map@,
            }).update(shard as int, (k + 1) as u8),
        ensures
            after.wf(),
    {
        assert(before.shard_map@[shard as int] == 0) by {
            if before.shard_map@[shard as int] > 0 {
                assert(before.slots@[before.shard_map@[shard as int] - 1].id == Some(shard));
            }
        }
        assert forall|s: int|
            0 <= s < after.shard_map@.len() && (#[trigger] after.shard_map@[s]) > 0 implies {
            &&& after.shard_map@[s] <= after.slots@.len()
            &&& after.slots@[after.shard_map@[s] - 1].id == Some(s as usize)
        } by {
            if s != shard {
                assert(before.shard_map@[s] == after.shard_map@[s]);
                let j = before.shard_map@[s] - 1;
                assert(before.slots@[j].id == Some(s as usize));
                if j == k {
                    assert(before.slots@[k].id == Some(s as usize));
                }
            }
        }
        assert forall|j: int|
            0 <= j < after.slots@.len() && (#[trigger] after.slots@[j]).id is Some implies {
            &&& after.slots@[j].id->0 < after.shard_map@.len()
            &&& after.shard_map@[after.slots@[j].id->0 as int] == j + 1
        } by {
            if j != k {
                let held = before.slots@[j].id->0;
                assert(before.slots@[j].id is Some);
                assert(before.shard_map@[held as int] == j + 1);
                if before.slots@[k].id == Some(held) {
                    assert(before.shard_map@[held as int] == k + 1);
                }
            }
        }
    }

    /// The first slot that holds no shard, if there is one.
    fn find_free_slot(&self) -> (found: Option<usize>)
        ensures
            found matches Some(k) ==> is_first_free(self@.slots, k as int),
            found is None ==> forall|k: int|
                0 <= k < self@.slots.len() ==> (#[trigger] self@.slots[k]).shard is Some,
    {
        let mut k: usize = 0;
        while k < self.slots.len()
            invariant
                k <= self.slots@.len(),
                forall|j: int| 0 <= j < k ==> (#[trigger] self@.slots[j]).shard is Some,
            decreases self.slots@.len() - k,
        {
            if self.slots[k].id.is_none() {
                return Some(k);
            }
            k += 1;
        }
        None
    }

    /// Makes sure that a slot holds shard `shard_idx` and returns that slot:
    /// the one that already holds it, else the first free one, else the slot
    /// at the round-robin cursor, which is flushed into `counts` first.
    pub fn ensure_slot(&mut self, shard_idx: usize, counts: &mut [u32], metrics: &mut Metrics) -> (slot_index: usize)
        requires
            old(self).wf(),
            old(self).fits(old(counts)@, *old(metrics), 0),
            shard_idx < shard_span(old(self)@.bits),
        ensures
            final(self).wf(),
            final(self).fits(final(counts)@, *final(metrics), 0),
            (kernel(final(self)@, final(counts)@, final(metrics)@), slot_index as int) == kernel(
                old(self)@,
                old(counts)@,
                old(metrics)@,
            ).ensure_slot(shard_idx),
            preserves(
                kernel(old(self)@, old(counts)@, old(metrics)@),
                kernel(final(self)@, final(counts)@, final(metrics)@),
            ),
            holds(final(self)@.slots, slot_index as int, shard_idx),
    {
        let ghost before = kernel(self@, counts@, metrics@);
        proof {
            lemma_ensure_slot(before, shard_idx);
        }
        let slot_plus_one: u8 = self.shard_map[shard_idx];
        if slot_plus_one > 0 {
            proof {
                lemma_holder_is(before.cache, slot_plus_one - 1, shard_idx);
            }
            return (slot_plus_one - 1) as usize;
        }
        proof {
            lemma_holder_none(before.cache, shard_idx);
        }
        match self.find_free_slot() {
            Some(slot_index) => {
                proof {
                    lemma_first_free_is(before.cache, slot_index as int);
                }
                self.reset_slot_counts(slot_index);
                let ghost cleared = *self;
                assert(self.slots@.len() == self@.slots.len());
                self.slots[slot_index].id = Some(shard_idx);
                self.slots[slot_index].used = false;
                self.shard_map[shard_idx] = (slot_index + 1) as u8;
                proof {
                    assert(self.store == cleared.store);
                    assert(self.slots@ =~= cleared.slots@.update(
                        slot_index as int,
                        ShardSlot { id: Some(shard_idx), used: false },
                    ));
                    assert(self.shard_map@ =~= cleared.shard_map@.update(
                        shard_idx as int,
                        (slot_index + 1) as u8,
                    ));
                    assert forall|k: int| 0 <= k < self.slots@.len() implies #[trigger] self@.slots[k]
                        == before.assign(slot_index as int, shard_idx).cache.slots[k] by {
                        assert(self@.slots[k].pending =~= cleared@.slots[k].pending);
                    }
                    assert(self@.slots =~~= before.assign(slot_index as int, shard_idx).cache.slots);
                    assert forall|j: int| 0 <= j < cleared.slots@.len() implies (
                    #[trigger] cleared.slots@[j]).id != Some(shard_idx) by {
                        assert(cleared@.slots[j].shard == before.cache.slots[j].shard);
                    }
                    assert(cleared.slots@[slot_index as int].id is None) by {
                        assert(cleared@.slots[slot_index as int].shard is None);
                    }
                    Self::lemma_rebind(cleared, *self, slot_index as int, shard_idx);
                }
                return slot_index;
            },
            None => {},
        }
        let slot_index: usize = self.next_evict % self.slots.len();
        self.flush_slot(slot_index, counts, metrics, FlushReason::Evict);
        let ghost flushed = kernel(self@, counts@, metrics@);
        self.reset_slot_counts(slot_index);
        let ghost cleared = *self;
        assert(self.slots@.len() == self@.slots.len());
        match self.slots[slot_index].id {
            Some(old_shard_idx) => {
                self.shard_map[old_shard_idx] = 0;
            },
            None => {},
        }
        self.slots[slot_index].id = Some(shard_idx);
        self.slots[slot_index].used = false;
        self.shard_map[shard_idx] = (slot_index + 1) as u8;
        self.next_evict = (slot_index + 1) % self.slots.len();
        proof {
            assert(self.store == cleared.store);
            assert(self.slots@ =~= cleared.slots@.update(
                slot_index as int,
                ShardSlot { id: Some(shard_idx), used: false },
            ));
            assert forall|k: int| 0 <= k < self.slots@.len() implies #[trigger] self@.slots[k]
                == flushed.assign(slot_index as int, shard_idx).cache.slots[k] by {
                assert(self@.slots[k].pending =~= cleared@.slots[k].pending);
            }
            assert(self@.slots =~~= flushed.assign(slot_index as int, shard_idx).cache.slots);
            assert forall|j: int| 0 <= j < cleared.slots@.len() implies (
            #[trigger] cleared.slots@[j]).id != Some(shard_idx) by {
                assert(cleared@.slots[j].shard == flushed.cache.slots[j].shard);
                assert(flushed.cache.slots[j].shard == before.cache.slots[j].shard);
            }
            Self::lemma_rebind(cleared, *self, slot_index as int, shard_idx);
        }
        slot_index
    }

    /// Counts one more row for bin `bin`. A bin outside `counts` is dropped.
    /// The increment is held back in the slot of the bin's shard where the
    /// slot has a counter for it, and goes straight into `counts` where not.
    pub fn increment(&mut self, bin: u16, counts: &mut [u32], metrics: &mut Metrics)
        requires
            old(self).wf(),
            old(self).fits(old(counts)@, *old(metrics), 1),
        ensures
            final(self).wf(),
            final(self).fits(final(counts)@, *final(metrics), 0),
            kernel(final(self)@, final(counts)@, final(metrics)@) == kernel(
                old(self)@,
                old(counts)@,
                old(metrics)@,
            ).increment(bin),
            final(counts)@.len() == old(counts)@.len(),
            final(self)@.bits == old(self)@.bits,
            final(self)@.size == old(self)@.size,
            final(self)@.slots.len() == old(self)@.slots.len(),
    {
        let ghost before = kernel(self@, counts@, metrics@);
        proof {
            lemma_increment(before, bin);
        }
        let bin: usize = bin as usize;
        if bin >= counts.len() {
            return ;
        }
        proof {
            lemma_split(self.shard_bits, bin);
        }
        let shard_idx: usize = if self.shard_bits == 0 {
            0
        } else {
            bin >> self.shard_bits
        };
        let slot_index = self.ensure_slot(shard_idx, counts, metrics);
        let ghost ready = kernel(self@, counts@, metrics@);
        let local_index: usize = if self.shard_bits == 0 {
            bin
        } else {
            bin & self.mask
        };
        if local_index < self.shard_size {
            proof {
                lemma_flat_bounds(
                    slot_index as int,
                    self.slots@.len() as int,
                    self.shard_size as int,
                    local_index as int,
                );
                assert(self.store@.len() == self.store.len());
                lemma_slots_total_update(
                    ready.cache.slots,
                    slot_index as int,
                    ready.cache.slots[slot_index as int],
                );
                lemma_total_index(ready.cache.slots[slot_index as int].pending, local_index as int);
            }
            let base: usize = slot_index * self.shard_size + local_index;
            self.store[base] += 1;
            self.slots[slot_index].used = true;
            proof {
                let size = self.shard_size as int;
                let after = before.increment(bin as u16);
                assert forall|k: int, o: int| 0 <= k < self.slots@.len() && 0 <= o < size implies (
                #[trigger] self.store@[flat(k, size, o)]) as nat == after.cache.slots[k].pending[o] by {
                    lemma_flat_bounds(k, self.slots@.len() as int, size, o);
                    if k != slot_index {
                        lemma_flat_apart(k, slot_index as int, size, o);
                    }
                }
                assert(self@.slots =~~= after.cache.slots);
            }
        } else {
            proof {
                lemma_total_index(ready.counts, bin as int);
            }
            counts[bin] += 1;
            proof {
                assert(as_nats(counts@) =~= before.increment(bin as u16).counts);
            }
        }
    }

    /// Flushes every slot into `counts`, then takes every shard away from its
    /// slot and clears the shard map, which leaves the cache empty.
    pub fn flush_all(&mut self, counts: &mut [u32], metrics: &mut Metrics)
        requires
            old(self).fits(old(counts)@, *old(metrics), 0),
        ensures
            final(self).wf(),
            final(self).fits(final(counts)@, *final(metrics), 0),
            kernel(final(self)@, final(counts)@, final(metrics)@) == kernel(
                old(self)@,
                old(counts)@,
                old(metrics)@,
            ).flush_all(),
            final(counts)@.len() == old(counts)@.len(),
            final(self)@.bits == old(self)@.bits,
            final(self)@.size == old(self)@.size,
            final(self)@.slots.len() == old(self)@.slots.len(),
    {
        let ghost before = kernel(self@, counts@, metrics@);
        let slot_count: usize = self.slots.len();
        let mut slot_index: usize = 0;
        while slot_index < slot_count
            invariant
                slot_index <= slot_count,
                slot_count == self.slots@.len(),
                self.shaped(),
                before.inv(),
                before.load() <= u32::MAX,
                before.cache.slots.len() == slot_count,
                kernel(self@, counts@, metrics@) == before.flush_first(slot_index as nat),
            decreases slot_count - slot_index,
        {
            let ghost earlier = kernel(self@, counts@, metrics@);
            proof {
                lemma_flush_first(before, slot_index as nat);
            }
            self.flush_slot(slot_index, counts, metrics, FlushReason::Final);
            let ghost flushed = kernel(self@, counts@, metrics@);
            self.slots[slot_index].id = None;
            self.slots[slot_index].used = false;
            proof {
                lemma_flush_slot(earlier, slot_index as int, FlushReason::Final);
                assert(self@.slots =~~= flushed.release(slot_index as int).cache.slots);
            }
            slot_index += 1;
        }
        proof {
            lemma_flush_first(before, slot_count as nat);
            lemma_flush_all(before);
            assert forall|k: int| 0 <= k < self.slots@.len() implies (#[trigger] self.slots@[k]).id is None by {
                assert(self@.slots[k].shard is None);
            }
        }
        let map_len: usize = self.shard_map.len();
        let mut i: usize = 0;
        while i < map_len
            invariant
                i <= map_len,
                map_len == self.shard_map@.len(),
                self.shaped(),
                kernel(self@, counts@, metrics@) == before.flush_all(),
                forall|k: int| 0 <= k < self.slots@.len() ==> (#[trigger] self.slots@[k]).id is None,
                forall|s: int| 0 <= s < i ==> self.shard_map@[s] == 0,
            decreases map_len - i,
        {
            self.shard_map[i] = 0;
            i += 1;
        }
    }
}

} // verus!
