//! What the steps of the model keep and what they change: the invariant, the
//! number of rows accounted for, and the count that each bin will end with.

use crate::address::{lemma_join, lemma_split, local_index, shard_base, shard_index, shard_span};
use crate::geometry::{spec_shard_bits, spec_shard_size};
use crate::metrics::{FlushReason, MetricsModel};
use crate::model::{
    held_back, held_back_count, holds, is_first_free, slots_total, CacheModel, KernelModel, SlotModel,
};
use crate::tally::{
    histogram, in_range_count, lemma_in_range_push, lemma_nonzero_le_total, lemma_occurrences_push,
    lemma_total_index, lemma_total_scatter, lemma_total_update, lemma_total_zeros, names_below,
    nonzero_count, occurrences, total, zeros,
};
use vstd::prelude::*;

verus! {

/// No two slots hold the same shard.
pub open spec fn distinct(slots: Seq<SlotModel>) -> bool {
    forall|j: int, k: int|
        0 <= j < slots.len() && 0 <= k < slots.len() && j != k && (#[trigger] slots[j]).shard is Some
            ==> slots[j].shard != (#[trigger] slots[k]).shard
}

/// Replacing one slot changes what the cache holds back by the difference of
/// the two slots' totals; no slot holds more than the cache does.
pub proof fn lemma_slots_total_update(slots: Seq<SlotModel>, k: int, slot: SlotModel)
    requires
        0 <= k < slots.len(),
    ensures
        slots_total(slots.update(k, slot)) == slots_total(slots) - total(slots[k].pending) + total(
            slot.pending,
        ),
        total(slots[k].pending) <= slots_total(slots),
    decreases slots.len(),
{
    if k == slots.len() - 1 {
        assert(slots.update(k, slot).drop_last() =~= slots.drop_last());
    } else {
        assert(slots.update(k, slot).drop_last() =~= slots.drop_last().update(k, slot));
        lemma_slots_total_update(slots.drop_last(), k, slot);
    }
}

/// A cache whose slots all hold nothing holds nothing.
pub proof fn lemma_slots_total_zero(slots: Seq<SlotModel>)
    requires
        forall|k: int| 0 <= k < slots.len() ==> total((#[trigger] slots[k]).pending) == 0,
    ensures
        slots_total(slots) == 0,
    decreases slots.len(),
{
    if slots.len() > 0 {
        lemma_slots_total_zero(slots.drop_last());
    }
}

/// With distinct slots, the slot that holds a shard is the holder of it.
pub proof fn lemma_holder_is(cache: CacheModel, k: int, shard: usize)
    requires
        distinct(cache.slots),
        holds(cache.slots, k, shard),
    ensures
        cache.holder(shard) == Some(k),
{
    let found = choose|j: int| holds(cache.slots, j, shard);
    assert(holds(cache.slots, found, shard));
    if found != k {
        assert(cache.slots[found].shard != cache.slots[k].shard);
    }
}

/// A shard that no slot holds has no holder.
pub proof fn lemma_holder_none(cache: CacheModel, shard: usize)
    requires
        forall|k: int| 0 <= k < cache.slots.len() ==> (#[trigger] cache.slots[k]).shard != Some(shard),
    ensures
        cache.holder(shard) is None,
{
}

/// The holder of a shard, where there is one, holds it.
pub proof fn lemma_holder_holds(cache: CacheModel, shard: usize)
    ensures
        cache.holder(shard) matches Some(k) ==> holds(cache.slots, k, shard),
        cache.holder(shard) is None ==> forall|k: int|
            0 <= k < cache.slots.len() ==> (#[trigger] cache.slots[k]).shard != Some(shard),
{
    if cache.holder(shard) is None {
        assert forall|k: int| 0 <= k < cache.slots.len() implies (#[trigger] cache.slots[k]).shard
            != Some(shard) by {
            if cache.slots[k].shard == Some(shard) {
                assert(holds(cache.slots, k, shard));
            }
        }
    }
}

/// The first free slot, where there is one, is free; where there is none,
/// every slot is taken.
pub proof fn lemma_first_free(cache: CacheModel)
    ensures
        cache.first_free() matches Some(k) ==> is_first_free(cache.slots, k),
        cache.first_free() is None ==> forall|k: int|
            0 <= k < cache.slots.len() ==> (#[trigger] cache.slots[k]).shard is Some,
{
    if cache.first_free() is None {
        lemma_no_free_before(cache.slots, cache.slots.len() as int);
    }
}

/// Where no slot is the first free one, every slot below `n` is taken.
proof fn lemma_no_free_before(slots: Seq<SlotModel>, n: int)
    requires
        0 <= n <= slots.len(),
        forall|k: int| !is_first_free(slots, k),
    ensures
        forall|k: int| 0 <= k < n ==> (#[trigger] slots[k]).shard is Some,
    decreases n,
{
    if n > 0 {
        lemma_no_free_before(slots, n - 1);
        assert(!is_first_free(slots, n - 1));
    }
}

/// The slot that is free with every slot before it taken is the first free one.
pub proof fn lemma_first_free_is(cache: CacheModel, k: int)
    requires
        is_first_free(cache.slots, k),
    ensures
        cache.first_free() == Some(k),
{
    let found = choose|j: int| is_first_free(cache.slots, j);
    assert(is_first_free(cache.slots, found));
    if found < k {
        assert(cache.slots[found].shard is Some);
    } else if k < found {
        assert(cache.slots[k].shard is Some);
    }
}

/// The geometry and the number of counts stay, and so do the rows accounted
/// for, the rows that went through the cache, and the count that each bin
/// will end with.
pub open spec fn preserves(before: KernelModel, after: KernelModel) -> bool {
    &&& after.counts.len() == before.counts.len()
    &&& after.cache.bits == before.cache.bits
    &&& after.cache.size == before.cache.size
    &&& after.cache.slots.len() == before.cache.slots.len()
    &&& after.load() == before.load()
    &&& after.cached_rows() == before.cached_rows()
    &&& forall|b: int|
        0 <= b < before.counts.len() ==> #[trigger] after.effective(b) == before.effective(b)
}

/// What the cache holds back for a bin whose shard slot `k` holds.
pub proof fn lemma_cached_held(cache: CacheModel, b: int, k: int)
    requires
        distinct(cache.slots),
        holds(cache.slots, k, shard_index(cache.bits, b as usize)),
    ensures
        cache.cached(b) == if local_index(cache.bits, b as usize) < cache.size {
            cache.slots[k].pending[local_index(cache.bits, b as usize) as int]
        } else {
            0
        },
{
    lemma_holder_is(cache, k, shard_index(cache.bits, b as usize));
}

/// The cache holds nothing back for a bin whose shard no slot holds.
pub proof fn lemma_cached_unheld(cache: CacheModel, b: int)
    requires
        forall|k: int|
            0 <= k < cache.slots.len() ==> (#[trigger] cache.slots[k]).shard != Some(
                shard_index(cache.bits, b as usize),
            ),
    ensures
        cache.cached(b) == 0,
{
    lemma_holder_none(cache, shard_index(cache.bits, b as usize));
}

/// A flush keeps the invariant and moves rows from the cache into the counts
/// without changing where any bin will end.
pub proof fn lemma_flush_slot(st: KernelModel, k: int, reason: FlushReason)
    requires
        st.inv(),
        0 <= k < st.cache.slots.len(),
    ensures
        st.flush_slot(k, reason).inv(),
        preserves(st, st.flush_slot(k, reason)),
        st.flush_slot(k, reason).cache.cursor == st.cache.cursor,
        forall|j: int|
            0 <= j < st.cache.slots.len() ==> (#[trigger] st.flush_slot(
                k,
                reason,
            ).cache.slots[j]).shard == st.cache.slots[j].shard,
        forall|j: int|
            0 <= j < st.cache.slots.len() && j != k ==> #[trigger] st.flush_slot(
                k,
                reason,
            ).cache.slots[j] == st.cache.slots[j],
        !st.flush_slot(k, reason).cache.slots[k].dirty,
        st.cache.slots[k].dirty ==> st.flush_slot(k, reason).metrics == st.metrics.record(
            reason,
            nonzero_count(st.cache.slots[k].pending),
            total(st.cache.slots[k].pending),
        ),
        !st.cache.slots[k].dirty ==> st.flush_slot(k, reason) == st,
{
    let after = st.flush_slot(k, reason);
    let slot = st.cache.slots[k];
    if slot.shard is Some && slot.dirty {
        let shard = slot.shard->0;
        let bits = st.cache.bits;
        let base = shard_base(bits, shard) as int;
        let pending = slot.pending;
        lemma_nonzero_le_total(pending);
        lemma_total_zeros(st.cache.size);
        lemma_total_scatter(st.counts, base, pending);
        lemma_slots_total_update(st.cache.slots, k, after.cache.slots[k]);
        assert(after.inv());
        assert forall|b: int| 0 <= b < st.counts.len() implies #[trigger] after.effective(b)
            == st.effective(b) by {
            let shard_b = shard_index(bits, b as usize);
            let local_b = local_index(bits, b as usize);
            lemma_split(bits, b as usize);
            // What the flush adds at `b` is what slot `k` held back for it.
            let added: nat = if base <= b < base + pending.len() {
                pending[b - base]
            } else {
                0
            };
            assert(after.counts[b] == st.counts[b] + added);
            if added > 0 {
                lemma_join(bits, shard, (b - base) as usize);
                assert(shard_b == shard);
                assert(local_b == b - base);
            }
            if shard_b == shard {
                assert(holds(st.cache.slots, k, shard_b));
                assert(holds(after.cache.slots, k, shard_b));
                lemma_cached_held(st.cache, b, k);
                lemma_cached_held(after.cache, b, k);
                assert(base + local_b == b);
            } else {
                lemma_holder_holds(st.cache, shard_b);
                match st.cache.holder(shard_b) {
                    Some(j) => {
                        assert(holds(after.cache.slots, j, shard_b));
                        lemma_cached_held(st.cache, b, j);
                        lemma_cached_held(after.cache, b, j);
                    },
                    None => {
                        lemma_cached_unheld(st.cache, b);
                        lemma_cached_unheld(after.cache, b);
                    },
                }
            }
        }
    }
}

/// A clean slot holds nothing back.
pub proof fn lemma_clean_is_zero(st: KernelModel, k: int)
    requires
        st.inv(),
        0 <= k < st.cache.slots.len(),
        !st.cache.slots[k].dirty,
    ensures
        total(st.cache.slots[k].pending) == 0,
        forall|o: int| 0 <= o < st.cache.size ==> st.cache.slots[k].pending[o] == 0,
{
    assert forall|o: int| 0 <= o < st.cache.size implies st.cache.slots[k].pending[o] == 0 by {
        lemma_total_index(st.cache.slots[k].pending, o);
    }
}

/// Handing a clean slot to a shard that no slot holds keeps the invariant
/// and changes no count.
pub proof fn lemma_assign(st: KernelModel, k: int, shard: usize)
    requires
        st.inv(),
        0 <= k < st.cache.slots.len(),
        !st.cache.slots[k].dirty,
        shard < shard_span(st.cache.bits),
        forall|j: int| 0 <= j < st.cache.slots.len() ==> (#[trigger] st.cache.slots[j]).shard != Some(shard),
    ensures
        st.assign(k, shard).inv(),
        preserves(st, st.assign(k, shard)),
{
    let after = st.assign(k, shard);
    let bits = st.cache.bits;
    lemma_clean_is_zero(st, k);
    lemma_total_zeros(st.cache.size);
    lemma_slots_total_update(st.cache.slots, k, after.cache.slots[k]);
    assert(after.inv());
    assert forall|b: int| 0 <= b < st.counts.len() implies #[trigger] after.effective(b)
        == st.effective(b) by {
        let shard_b = shard_index(bits, b as usize);
        if shard_b == shard {
            lemma_cached_unheld(st.cache, b);
            assert(holds(after.cache.slots, k, shard_b));
            lemma_cached_held(after.cache, b, k);
        } else {
            lemma_holder_holds(st.cache, shard_b);
            match st.cache.holder(shard_b) {
                Some(j) => {
                    lemma_cached_held(st.cache, b, j);
                    if j == k {
                        assert forall|i: int| 0 <= i < after.cache.slots.len() implies (
                        #[trigger] after.cache.slots[i]).shard != Some(shard_b) by {
                            if i != k {
                                assert(st.cache.slots[k].shard != st.cache.slots[i].shard);
                            }
                        }
                        lemma_cached_unheld(after.cache, b);
                    } else {
                        assert(holds(after.cache.slots, j, shard_b));
                        lemma_cached_held(after.cache, b, j);
                    }
                },
                None => {
                    lemma_cached_unheld(st.cache, b);
                    lemma_cached_unheld(after.cache, b);
                },
            }
        }
    }
}

/// Making sure that a slot holds a shard keeps the invariant and changes no
/// count; the slot it names holds the shard afterwards.
pub proof fn lemma_ensure_slot(st: KernelModel, shard: usize)
    requires
        st.inv(),
        shard < shard_span(st.cache.bits),
    ensures
        st.ensure_slot(shard).0.inv(),
        preserves(st, st.ensure_slot(shard).0),
        holds(st.ensure_slot(shard).0.cache.slots, st.ensure_slot(shard).1, shard),
{
    lemma_holder_holds(st.cache, shard);
    if st.cache.holder(shard) is None {
        lemma_first_free(st.cache);
        match st.cache.first_free() {
            Some(k) => {
                lemma_assign(st, k, shard);
            },
            None => {
                let v = st.victim();
                let flushed = st.flush_slot(v, FlushReason::Evict);
                lemma_flush_slot(st, v, FlushReason::Evict);
                lemma_assign(flushed, v, shard);
                let assigned = flushed.assign(v, shard);
                let after = st.ensure_slot(shard).0;
                assert(after.cache.slots == assigned.cache.slots);
                assert(after.inv());
                assert forall|b: int| 0 <= b < st.counts.len() implies #[trigger] after.effective(b)
                    == st.effective(b) by {
                    assert(after.cache.cached(b) == assigned.cache.cached(b));
                    assert(assigned.effective(b) == flushed.effective(b));
                    assert(flushed.effective(b) == st.effective(b));
                }
            },
        }
    }
}

/// One bin assignment keeps the invariant. A bin of the histogram raises its
/// own final count and the rows accounted for by one; any other bin changes
/// nothing at all.
pub proof fn lemma_increment(st: KernelModel, bin: u16)
    requires
        st.inv(),
    ensures
        st.increment(bin).inv(),
        st.increment(bin).counts.len() == st.counts.len(),
        st.increment(bin).cache.bits == st.cache.bits,
        st.increment(bin).cache.size == st.cache.size,
        st.increment(bin).cache.slots.len() == st.cache.slots.len(),
        bin as int >= st.counts.len() ==> st.increment(bin) == st,
        (bin as int) < st.counts.len() ==> {
            &&& st.increment(bin).load() == st.load() + 1
            &&& st.increment(bin).cached_rows() == st.cached_rows() + if st.cacheable(bin) {
                1nat
            } else {
                0nat
            }
            &&& forall|b: int|
                0 <= b < st.counts.len() ==> #[trigger] st.increment(bin).effective(b)
                    == st.effective(b) + if b == bin as int {
                    1nat
                } else {
                    0nat
                }
        },
{
    if (bin as int) < st.counts.len() {
        let bits = st.cache.bits;
        let shard = shard_index(bits, bin as usize);
        let local = local_index(bits, bin as usize) as int;
        lemma_split(bits, bin as usize);
        lemma_ensure_slot(st, shard);
        let (ready, k) = st.ensure_slot(shard);
        let after = st.increment(bin);
        if local < st.cache.size {
            let slot = ready.cache.slots[k];
            lemma_total_update(slot.pending, local, slot.pending[local] + 1);
            lemma_slots_total_update(ready.cache.slots, k, after.cache.slots[k]);
            assert(after.inv());
            assert forall|b: int| 0 <= b < st.counts.len() implies #[trigger] after.effective(b)
                == st.effective(b) + if b == bin as int {
                1nat
            } else {
                0nat
            } by {
                let shard_b = shard_index(bits, b as usize);
                lemma_split(bits, b as usize);
                assert(ready.effective(b) == st.effective(b));
                if shard_b == shard {
                    assert(holds(after.cache.slots, k, shard_b));
                    lemma_cached_held(ready.cache, b, k);
                    lemma_cached_held(after.cache, b, k);
                } else {
                    lemma_holder_holds(ready.cache, shard_b);
                    match ready.cache.holder(shard_b) {
                        Some(j) => {
                            assert(holds(after.cache.slots, j, shard_b));
                            lemma_cached_held(ready.cache, b, j);
                            lemma_cached_held(after.cache, b, j);
                        },
                        None => {
                            lemma_cached_unheld(ready.cache, b);
                            lemma_cached_unheld(after.cache, b);
                        },
                    }
                }
            }
        } else {
            lemma_total_update(ready.counts, bin as int, ready.counts[bin as int] + 1);
            assert(after.inv());
            assert forall|b: int| 0 <= b < st.counts.len() implies #[trigger] after.effective(b)
                == st.effective(b) + if b == bin as int {
                1nat
            } else {
                0nat
            } by {
                assert(ready.effective(b) == st.effective(b));
            }
        }
    }
}

/// An empty cache of at least one slot, counts and consistent metrics that
/// account for no more rows than the counts hold form a state that satisfies
/// the invariant, holds nothing back and accounts for what the counts hold.
pub proof fn lemma_empty(cache: CacheModel, counts: Seq<nat>, metrics: MetricsModel)
    requires
        cache.bits <= 16,
        cache.slots.len() >= 1,
        cache == CacheModel::empty(cache.bits, cache.size, cache.slots.len()),
        counts.len() <= usize::MAX,
        metrics.consistent(),
        metrics.rows_written <= total(counts),
    ensures
        (KernelModel { cache, counts, metrics }).inv(),
        (KernelModel { cache, counts, metrics }).load() == total(counts),
        (KernelModel { cache, counts, metrics }).cached_rows() == metrics.rows_written,
        forall|b: int|
            0 <= b < counts.len() ==> #[trigger] (KernelModel { cache, counts, metrics }).effective(b)
                == counts[b],
{
    let st = KernelModel { cache, counts, metrics };
    lemma_total_zeros(cache.size);
    lemma_slots_total_zero(cache.slots);
    assert(st.inv());
    assert forall|b: int| 0 <= b < counts.len() implies #[trigger] st.effective(b) == counts[b] by {
        lemma_cached_unheld(cache, b);
    }
}

/// The state before the first bin assignment of an accumulation satisfies
/// the invariant, holds nothing back and accounts for what the counts hold.
pub proof fn lemma_begin(counts: Seq<nat>, metrics: MetricsModel)
    requires
        counts.len() <= usize::MAX,
        metrics.consistent(),
        metrics.rows_written <= total(counts),
    ensures
        KernelModel::begin(counts, metrics).inv(),
        KernelModel::begin(counts, metrics).load() == total(counts),
        KernelModel::begin(counts, metrics).cached_rows() == metrics.rows_written,
        forall|b: int|
            0 <= b < counts.len() ==> #[trigger] KernelModel::begin(counts, metrics).effective(b)
                == counts[b],
{
    lemma_empty(KernelModel::begin(counts, metrics).cache, counts, metrics);
}

/// Taking the shard away from a clean slot keeps the invariant and changes
/// no count.
pub proof fn lemma_release(st: KernelModel, k: int)
    requires
        st.inv(),
        0 <= k < st.cache.slots.len(),
        !st.cache.slots[k].dirty,
    ensures
        st.release(k).inv(),
        preserves(st, st.release(k)),
        st.release(k).metrics == st.metrics,
        st.release(k).counts == st.counts,
{
    let after = st.release(k);
    let bits = st.cache.bits;
    lemma_clean_is_zero(st, k);
    lemma_slots_total_update(st.cache.slots, k, after.cache.slots[k]);
    assert(after.inv());
    assert forall|b: int| 0 <= b < st.counts.len() implies #[trigger] after.effective(b)
        == st.effective(b) by {
        let shard_b = shard_index(bits, b as usize);
        lemma_holder_holds(st.cache, shard_b);
        match st.cache.holder(shard_b) {
            Some(j) => {
                lemma_cached_held(st.cache, b, j);
                if j == k {
                    assert forall|i: int| 0 <= i < after.cache.slots.len() implies (
                    #[trigger] after.cache.slots[i]).shard != Some(shard_b) by {
                        if i != k {
                            assert(st.cache.slots[k].shard != st.cache.slots[i].shard);
                        }
                    }
                    lemma_cached_unheld(after.cache, b);
                } else {
                    assert(holds(after.cache.slots, j, shard_b));
                    lemma_cached_held(after.cache, b, j);
                }
            },
            None => {
                lemma_cached_unheld(st.cache, b);
                lemma_cached_unheld(after.cache, b);
            },
        }
    }
}

/// Flushing and releasing the first `n` slots keeps the invariant and changes
/// no final count; those slots end free and empty, the others are untouched.
pub proof fn lemma_flush_first(st: KernelModel, n: nat)
    requires
        st.inv(),
        n <= st.cache.slots.len(),
    ensures
        st.flush_first(n).inv(),
        preserves(st, st.flush_first(n)),
        st.flush_first(n).cache.cursor == st.cache.cursor,
        forall|j: int|
            0 <= j < n ==> (#[trigger] st.flush_first(n).cache.slots[j]).shard is None && total(
                st.flush_first(n).cache.slots[j].pending,
            ) == 0,
        forall|j: int|
            n <= j < st.cache.slots.len() ==> #[trigger] st.flush_first(n).cache.slots[j]
                == st.cache.slots[j],
    decreases n,
{
    if n > 0 {
        let k = n - 1;
        let earlier = st.flush_first(k as nat);
        lemma_flush_first(st, k as nat);
        let flushed = earlier.flush_slot(k, FlushReason::Final);
        lemma_flush_slot(earlier, k, FlushReason::Final);
        lemma_release(flushed, k);
        let after = st.flush_first(n);
        assert(after == flushed.release(k));
        assert forall|b: int| 0 <= b < st.counts.len() implies #[trigger] after.effective(b)
            == st.effective(b) by {
            assert(flushed.effective(b) == earlier.effective(b));
            assert(earlier.effective(b) == st.effective(b));
        }
        assert forall|j: int| 0 <= j < n implies (#[trigger] after.cache.slots[j]).shard is None
            && total(after.cache.slots[j].pending) == 0 by {
            if j < k {
                assert(flushed.cache.slots[j] == earlier.cache.slots[j]);
            }
        }
        assert forall|j: int| n <= j < st.cache.slots.len() implies #[trigger] after.cache.slots[j]
            == st.cache.slots[j] by {
            assert(flushed.cache.slots[j] == earlier.cache.slots[j]);
        }
    }
}

/// After the final flush nothing is held back: every count is final, the
/// counts add up to the rows accounted for, and every row that went through
/// the cache is written.
pub proof fn lemma_flush_all(st: KernelModel)
    requires
        st.inv(),
    ensures
        st.flush_all().inv(),
        st.flush_all().counts.len() == st.counts.len(),
        st.flush_all().cache.pending_total() == 0,
        total(st.flush_all().counts) == st.load(),
        st.flush_all().metrics.rows_written == st.cached_rows(),
        forall|b: int| 0 <= b < st.counts.len() ==> #[trigger] st.flush_all().counts[b] == st.effective(b),
        forall|k: int|
            0 <= k < st.cache.slots.len() ==> #[trigger] st.flush_all().cache.slots[k]
                == SlotModel::free(st.cache.size),
{
    let after = st.flush_all();
    lemma_flush_first(st, st.cache.slots.len());
    lemma_slots_total_zero(after.cache.slots);
    assert forall|k: int| 0 <= k < st.cache.slots.len() implies #[trigger] after.cache.slots[k]
        == SlotModel::free(st.cache.size) by {
        lemma_clean_is_zero(after, k);
        assert(after.cache.slots[k].pending =~= zeros(st.cache.size));
    }
    assert forall|b: int| 0 <= b < st.counts.len() implies #[trigger] after.counts[b]
        == st.effective(b) by {
        assert(after.effective(b) == st.effective(b));
        lemma_cached_unheld(after.cache, b);
    }
}

/// A stream of bin assignments keeps the invariant. It raises the final
/// count of each bin by the number of entries that name it, the rows
/// accounted for by the number of entries inside the histogram, and the rows
/// that went through the cache by the number of entries it can hold back.
pub proof fn lemma_feed(st: KernelModel, bins: Seq<u16>)
    requires
        st.inv(),
    ensures
        st.feed(bins).inv(),
        st.feed(bins).counts.len() == st.counts.len(),
        st.feed(bins).cache.bits == st.cache.bits,
        st.feed(bins).cache.size == st.cache.size,
        st.feed(bins).cache.slots.len() == st.cache.slots.len(),
        st.feed(bins).load() == st.load() + in_range_count(bins, st.counts.len() as int),
        st.feed(bins).cached_rows() == st.cached_rows() + held_back_count(
            bins,
            st.cache.bits,
            st.cache.size,
            st.counts.len(),
        ),
        forall|b: int|
            0 <= b < st.counts.len() ==> #[trigger] st.feed(bins).effective(b) == st.effective(b)
                + occurrences(bins, b),
    decreases bins.len(),
{
    let n = st.counts.len();
    if bins.len() == 0 {
        reveal(Seq::filter);
    } else {
        let head = bins.drop_last();
        let last = bins.last();
        let earlier = st.feed(head);
        lemma_feed(st, head);
        lemma_increment(earlier, last);
        assert(head.push(last) =~= bins);
        lemma_in_range_push(head, last, n as int);
        head.lemma_filter_len_push(held_back(st.cache.bits, st.cache.size, n), last);
        assert forall|b: int| 0 <= b < n implies #[trigger] st.feed(bins).effective(b)
            == st.effective(b) + occurrences(bins, b) by {
            lemma_occurrences_push(head, last, b);
            assert(earlier.effective(b) == st.effective(b) + occurrences(head, b));
            if (last as int) < n {
                assert(earlier.increment(last).effective(b) == earlier.effective(b) + if b
                    == last as int {
                    1nat
                } else {
                    0nat
                });
            }
        }
    }
}

/// Feeding one stream after another is feeding the two as one.
pub proof fn lemma_feed_append(st: KernelModel, first: Seq<u16>, second: Seq<u16>)
    ensures
        st.feed(first).feed(second) == st.feed(first + second),
    decreases second.len(),
{
    if second.len() == 0 {
        assert(first + second =~= first);
    } else {
        lemma_feed_append(st, first, second.drop_last());
        assert((first + second).drop_last() =~= first + second.drop_last());
    }
}

/// Entries that name no bin of the histogram can be left out of the stream:
/// the state it leads to is the same.
pub proof fn lemma_feed_skips_out_of_range(st: KernelModel, bins: Seq<u16>)
    requires
        st.inv(),
    ensures
        st.feed(bins) == st.feed(bins.filter(names_below(st.counts.len() as int))),
    decreases bins.len(),
{
    let keep = names_below(st.counts.len() as int);
    reveal(Seq::filter);
    if bins.len() > 0 {
        let head = bins.drop_last();
        lemma_feed_skips_out_of_range(st, head);
        lemma_feed(st, head);
        if keep(bins.last()) {
            assert(bins.filter(keep).drop_last() =~= head.filter(keep));
        }
    }
}

/// Taking the stream in batches leads to the same state as taking it entry
/// by entry.
pub proof fn lemma_feed_batched(st: KernelModel, bins: Seq<u16>, lanes: nat)
    ensures
        st.feed_batched(bins, lanes) == st.feed(bins),
    decreases bins.len(),
{
    if lanes != 0 && bins.len() >= lanes {
        let batch = bins.take(lanes as int);
        let rest = bins.skip(lanes as int);
        lemma_feed_batched(st.feed(batch), rest, lanes);
        lemma_feed_append(st, batch, rest);
        assert(batch + rest =~= bins);
    }
}

/// What an accumulation into `counts` ends with: each bin has gained the
/// number of entries that name it, the counts have gained the number of
/// entries inside the histogram, the rows written have grown by the number
/// of entries that the cache could hold back, and nothing is held back.
pub proof fn lemma_run(counts: Seq<nat>, metrics: MetricsModel, bins: Seq<u16>)
    requires
        counts.len() <= usize::MAX,
        metrics.consistent(),
        metrics.rows_written <= total(counts),
    ensures
        KernelModel::run(counts, metrics, bins).inv(),
        KernelModel::run(counts, metrics, bins).counts.len() == counts.len(),
        forall|b: int|
            0 <= b < counts.len() ==> #[trigger] KernelModel::run(counts, metrics, bins).counts[b]
                == counts[b] + occurrences(bins, b),
        total(KernelModel::run(counts, metrics, bins).counts) == total(counts) + in_range_count(
            bins,
            counts.len() as int,
        ),
        KernelModel::run(counts, metrics, bins).metrics.rows_written == metrics.rows_written
            + held_back_count(
            bins,
            KernelModel::begin(counts, metrics).cache.bits,
            KernelModel::begin(counts, metrics).cache.size,
            counts.len(),
        ),
        KernelModel::run(counts, metrics, bins).cache.pending_total() == 0,
{
    let begin = KernelModel::begin(counts, metrics);
    lemma_begin(counts, metrics);
    lemma_feed(begin, bins);
    lemma_flush_all(begin.feed(bins));
    let end = KernelModel::run(counts, metrics, bins);
    assert forall|b: int| 0 <= b < counts.len() implies #[trigger] end.counts[b] == counts[b]
        + occurrences(bins, b) by {
        assert(end.counts[b] == begin.feed(bins).effective(b));
        assert(begin.effective(b) == counts[b]);
    }
}

/// What an accumulation over fresh counts ends with: each bin holds the
/// number of entries that name it, the counts add up to the number of entries
/// inside the histogram, and the rows written are the entries that the cache
/// could hold back.
pub proof fn lemma_outcome(bins: Seq<u16>, bin_count: nat)
    requires
        bin_count <= usize::MAX,
    ensures
        KernelModel::outcome(bins, bin_count).inv(),
        KernelModel::outcome(bins, bin_count).counts =~= histogram(bins, bin_count),
        total(KernelModel::outcome(bins, bin_count).counts) == in_range_count(bins, bin_count as int),
        KernelModel::outcome(bins, bin_count).metrics.rows_written == held_back_count(
            bins,
            KernelModel::start(bin_count).cache.bits,
            KernelModel::start(bin_count).cache.size,
            bin_count,
        ),
{
    lemma_total_zeros(bin_count);
    lemma_run(zeros(bin_count), MetricsModel::zero(), bins);
}

/// Entries that name no bin of the histogram change neither the counts nor
/// the metrics: the accumulation ends as it does without them.
pub proof fn lemma_out_of_range_ignored(bins: Seq<u16>, bin_count: nat)
    requires
        bin_count <= usize::MAX,
    ensures
        KernelModel::outcome(bins, bin_count) == KernelModel::outcome(
            bins.filter(names_below(bin_count as int)),
            bin_count,
        ),
{
    lemma_total_zeros(bin_count);
    lemma_begin(zeros(bin_count), MetricsModel::zero());
    lemma_feed_skips_out_of_range(KernelModel::start(bin_count), bins);
}

/// The batched walk and the entry-by-entry walk end in the same state: the
/// same counts and the same metrics, whatever the batch width.
pub proof fn lemma_drivers_agree(
    counts: Seq<nat>,
    metrics: MetricsModel,
    bins: Seq<u16>,
    lanes: nat,
)
    ensures
        KernelModel::run_batched(counts, metrics, bins, lanes) == KernelModel::run(
            counts,
            metrics,
            bins,
        ),
{
    lemma_feed_batched(KernelModel::begin(counts, metrics), bins, lanes);
}

/// Up to the widest histogram of the medium tier every position of a shard
/// has a physical counter, so every entry inside the histogram goes through
/// the cache and is counted as a row written.
pub proof fn lemma_rows_count_every_entry(bins: Seq<u16>, bin_count: nat)
    requires
        bin_count <= 16384,
    ensures
        KernelModel::outcome(bins, bin_count).metrics.rows_written == in_range_count(
            bins,
            bin_count as int,
        ),
{
    let bits = spec_shard_bits(bin_count as int) as usize;
    let size = spec_shard_size(bin_count as int) as nat;
    lemma_outcome(bins, bin_count);
    assert forall|v: u16| #[trigger]
        held_back(bits, size, bin_count)(v) == names_below(bin_count as int)(v) by {
        let wide = v as usize;
        assert(wide & 63 < 64) by (bit_vector);
        assert(wide & 255 < 256) by (bit_vector);
        assert((1usize << 6usize) - 1 == 63) by (bit_vector);
        assert((1usize << 8usize) - 1 == 255) by (bit_vector);
    }
    lemma_same_filter(bins, held_back(bits, size, bin_count), names_below(bin_count as int));
}

/// Two tests that agree on every entry keep the same entries.
proof fn lemma_same_filter(bins: Seq<u16>, first: spec_fn(u16) -> bool, second: spec_fn(u16) -> bool)
    requires
        forall|v: u16| #[trigger] first(v) == second(v),
    ensures
        bins.filter(first) == bins.filter(second),
    decreases bins.len(),
{
    reveal(Seq::filter);
    if bins.len() > 0 {
        lemma_same_filter(bins.drop_last(), first, second);
    }
}

} // verus!
