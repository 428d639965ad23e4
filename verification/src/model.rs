//! The mathematical model of one accumulation: the shard cache, the output
//! counts and the metrics as one state, and the steps that take it from one
//! bin assignment to the next.

use crate::address::{local_index, local_mask, shard_base, shard_index, shard_span};
use crate::geometry::{spec_shard_bits, spec_shard_size, spec_slot_count};
use crate::metrics::{FlushReason, MetricsModel};
use crate::tally::{nonzero_count, scatter, total, zeros};
use vstd::prelude::*;

verus! {

/// One write-combining slot: the shard it holds, whether it was written since
/// it was last emptied, and its counters.
#[verifier::ext_equal]
pub struct SlotModel {
    pub shard: Option<usize>,
    pub dirty: bool,
    pub pending: Seq<nat>,
}

/// The shard cache: its geometry, its slots and the round-robin cursor.
#[verifier::ext_equal]
pub struct CacheModel {
    pub bits: usize,
    pub size: nat,
    pub slots: Seq<SlotModel>,
    pub cursor: nat,
}

/// The whole state of an accumulation.
#[verifier::ext_equal]
pub struct KernelModel {
    pub cache: CacheModel,
    pub counts: Seq<nat>,
    pub metrics: MetricsModel,
}

/// Slot `k` holds shard `shard`.
pub open spec fn holds(slots: Seq<SlotModel>, k: int, shard: usize) -> bool {
    0 <= k < slots.len() && slots[k].shard == Some(shard)
}

/// Slot `k` is free and every slot before it is taken.
pub open spec fn is_first_free(slots: Seq<SlotModel>, k: int) -> bool {
    &&& 0 <= k < slots.len()
    &&& slots[k].shard is None
    &&& forall|j: int| 0 <= j < k ==> (#[trigger] slots[j]).shard is Some
}

/// The bin assignments that name a bin of the histogram which the cache can
/// hold back: its position inside its shard has a physical counter.
pub open spec fn held_back(bits: usize, size: nat, bin_count: nat) -> spec_fn(u16) -> bool {
    |v: u16| (v as int) < bin_count && local_index(bits, v as usize) < size
}

/// Number of entries of `bins` that the cache can hold back.
pub open spec fn held_back_count(bins: Seq<u16>, bits: usize, size: nat, bin_count: nat) -> nat {
    bins.filter(held_back(bits, size, bin_count)).len()
}

/// Sum of all counters of all slots.
pub open spec fn slots_total(slots: Seq<SlotModel>) -> nat
    decreases slots.len(),
{
    if slots.len() == 0 {
        0
    } else {
        slots_total(slots.drop_last()) + total(slots.last().pending)
    }
}

impl SlotModel {
    /// A slot that holds no shard.
    pub open spec fn free(size: nat) -> SlotModel {
        SlotModel { shard: None, dirty: false, pending: zeros(size) }
    }

    /// A slot that was just handed to `shard`.
    pub open spec fn fresh(shard: usize, size: nat) -> SlotModel {
        SlotModel { shard: Some(shard), dirty: false, pending: zeros(size) }
    }
}

impl CacheModel {
    /// A cache whose slots are all free.
    pub open spec fn empty(bits: usize, size: nat, slot_count: nat) -> CacheModel {
        CacheModel {
            bits,
            size,
            slots: Seq::new(slot_count, |k: int| SlotModel::free(size)),
            cursor: 0,
        }
    }

    /// The slot that holds `shard`, if one does.
    pub open spec fn holder(self, shard: usize) -> Option<int> {
        if exists|k: int| holds(self.slots, k, shard) {
            Some(choose|k: int| holds(self.slots, k, shard))
        } else {
            None
        }
    }

    /// The first free slot, if there is one.
    pub open spec fn first_free(self) -> Option<int> {
        if exists|k: int| is_first_free(self.slots, k) {
            Some(choose|k: int| is_first_free(self.slots, k))
        } else {
            None
        }
    }

    /// The count that the cache holds back for bin `bin`.
    pub open spec fn cached(self, bin: int) -> nat {
        let shard = shard_index(self.bits, bin as usize);
        let local = local_index(self.bits, bin as usize);
        match self.holder(shard) {
            Some(k) => if local < self.size {
                self.slots[k].pending[local as int]
            } else {
                0
            },
            None => 0,
        }
    }

    /// Sum of everything that the cache holds back.
    pub open spec fn pending_total(self) -> nat {
        slots_total(self.slots)
    }

    /// The cache with slot `k` replaced.
    pub open spec fn with_slot(self, k: int, slot: SlotModel) -> CacheModel {
        CacheModel { slots: self.slots.update(k, slot), ..self }
    }
}

impl KernelModel {
    /// The state before the first bin assignment of an accumulation into
    /// `counts`: an empty cache with the geometry that the number of bins
    /// asks for.
    pub open spec fn begin(counts: Seq<nat>, metrics: MetricsModel) -> KernelModel {
        KernelModel {
            cache: CacheModel::empty(
                spec_shard_bits(counts.len() as int) as usize,
                spec_shard_size(counts.len() as int) as nat,
                spec_slot_count(counts.len() as int) as nat,
            ),
            counts,
            metrics,
        }
    }

    /// The state before the first bin assignment of an accumulation into
    /// fresh counts for `bin_count` bins, with the metrics reset.
    pub open spec fn start(bin_count: nat) -> KernelModel {
        KernelModel::begin(zeros(bin_count), MetricsModel::zero())
    }

    /// The count of bin `b` once everything held back is committed.
    pub open spec fn effective(self, b: int) -> nat {
        self.counts[b] + self.cache.cached(b)
    }

    /// Number of rows that the state accounts for, committed or held back.
    pub open spec fn load(self) -> nat {
        total(self.counts) + self.cache.pending_total()
    }

    /// Number of rows that went through the cache, committed or held back.
    pub open spec fn cached_rows(self) -> nat {
        self.metrics.rows_written + self.cache.pending_total()
    }

    /// Commits the counters of slot `k` into the counts and empties them. A
    /// slot that is free or clean is left alone.
    pub open spec fn flush_slot(self, k: int, reason: FlushReason) -> KernelModel {
        let slot = self.cache.slots[k];
        match slot.shard {
            Some(shard) => if slot.dirty {
                let bins = nonzero_count(slot.pending);
                KernelModel {
                    cache: self.cache.with_slot(
                        k,
                        SlotModel { shard: slot.shard, dirty: false, pending: zeros(self.cache.size) },
                    ),
                    counts: scatter(
                        self.counts,
                        shard_base(self.cache.bits, shard) as int,
                        slot.pending,
                    ),
                    metrics: if bins > 0 {
                        self.metrics.record(reason, bins, total(slot.pending))
                    } else {
                        self.metrics
                    },
                }
            } else {
                self
            },
            None => self,
        }
    }

    /// Hands slot `k` to `shard`, clean and with zeroed counters.
    pub open spec fn assign(self, k: int, shard: usize) -> KernelModel {
        KernelModel {
            cache: self.cache.with_slot(k, SlotModel::fresh(shard, self.cache.size)),
            ..self
        }
    }

    /// The slot that is flushed and reused when every slot is taken.
    pub open spec fn victim(self) -> int {
        (self.cache.cursor as int) % (self.cache.slots.len() as int)
    }

    /// The state in which some slot holds `shard`, and that slot: the one that
    /// already holds it, else the first free one, else the slot at the
    /// cursor after its flush.
    pub open spec fn ensure_slot(self, shard: usize) -> (KernelModel, int) {
        match self.cache.holder(shard) {
            Some(k) => (self, k),
            None => match self.cache.first_free() {
                Some(k) => (self.assign(k, shard), k),
                None => {
                    let v = self.victim();
                    let flushed = self.flush_slot(v, FlushReason::Evict).assign(v, shard);
                    (
                        KernelModel {
                            cache: CacheModel {
                                cursor: ((v + 1) % (self.cache.slots.len() as int)) as nat,
                                ..flushed.cache
                            },
                            ..flushed
                        },
                        v,
                    )
                },
            },
        }
    }

    /// The bin assignment `bin` names a bin of the histogram that the cache
    /// can hold back.
    pub open spec fn cacheable(self, bin: u16) -> bool {
        held_back(self.cache.bits, self.cache.size, self.counts.len())(bin)
    }

    /// The state after one more row was assigned to `bin`. A bin outside the
    /// histogram changes nothing.
    pub open spec fn increment(self, bin: u16) -> KernelModel {
        if bin as int >= self.counts.len() {
            self
        } else {
            let (ready, k) = self.ensure_slot(shard_index(self.cache.bits, bin as usize));
            let local = local_index(self.cache.bits, bin as usize) as int;
            if local < self.cache.size {
                let slot = ready.cache.slots[k];
                KernelModel {
                    cache: ready.cache.with_slot(
                        k,
                        SlotModel {
                            shard: slot.shard,
                            dirty: true,
                            pending: slot.pending.update(local, slot.pending[local] + 1),
                        },
                    ),
                    ..ready
                }
            } else {
                KernelModel {
                    counts: ready.counts.update(bin as int, ready.counts[bin as int] + 1),
                    ..ready
                }
            }
        }
    }

    /// Takes the shard away from slot `k`.
    pub open spec fn release(self, k: int) -> KernelModel {
        let slot = self.cache.slots[k];
        KernelModel {
            cache: self.cache.with_slot(
                k,
                SlotModel { shard: None, dirty: false, pending: slot.pending },
            ),
            ..self
        }
    }

    /// Flushes and releases the first `n` slots, in order.
    pub open spec fn flush_first(self, n: nat) -> KernelModel
        decreases n,
    {
        if n == 0 {
            self
        } else {
            self.flush_first((n - 1) as nat).flush_slot(n - 1, FlushReason::Final).release(n - 1)
        }
    }

    /// Flushes and releases every slot.
    pub open spec fn flush_all(self) -> KernelModel {
        self.flush_first(self.cache.slots.len())
    }

    /// The state after the bin assignments `bins`, in order.
    pub open spec fn feed(self, bins: Seq<u16>) -> KernelModel
        decreases bins.len(),
    {
        if bins.len() == 0 {
            self
        } else {
            self.feed(bins.drop_last()).increment(bins.last())
        }
    }

    /// The state after the bin assignments `bins`, taken `lanes` at a time as
    /// long as a full batch is left, and one by one after that.
    pub open spec fn feed_batched(self, bins: Seq<u16>, lanes: nat) -> KernelModel
        decreases bins.len(),
    {
        if lanes == 0 || bins.len() < lanes {
            self.feed(bins)
        } else {
            self.feed(bins.take(lanes as int)).feed_batched(bins.skip(lanes as int), lanes)
        }
    }

    /// The state in which the accumulation of `bins` into `counts` ends, once
    /// every slot is flushed.
    pub open spec fn run(counts: Seq<nat>, metrics: MetricsModel, bins: Seq<u16>) -> KernelModel {
        KernelModel::begin(counts, metrics).feed(bins).flush_all()
    }

    /// The state in which the batched accumulation of `bins` into `counts`
    /// ends, once every slot is flushed.
    pub open spec fn run_batched(
        counts: Seq<nat>,
        metrics: MetricsModel,
        bins: Seq<u16>,
        lanes: nat,
    ) -> KernelModel {
        KernelModel::begin(counts, metrics).feed_batched(bins, lanes).flush_all()
    }

    /// The state in which the accumulation of `bins` over `bin_count` bins
    /// ends: fresh counts, metrics reset at the start, every slot flushed.
    pub open spec fn outcome(bins: Seq<u16>, bin_count: nat) -> KernelModel {
        KernelModel::run(zeros(bin_count), MetricsModel::zero(), bins)
    }

    /// What holds of every state that an accumulation reaches.
    pub open spec fn inv(self) -> bool {
        let cache = self.cache;
        &&& cache.bits <= 16
        &&& self.counts.len() <= usize::MAX
        &&& cache.slots.len() >= 1
        &&& cache.cursor < cache.slots.len()
        &&& self.metrics.consistent()
        &&& self.metrics.rows_written <= total(self.counts)
        &&& forall|k: int|
            0 <= k < cache.slots.len() ==> (#[trigger] cache.slots[k]).pending.len() == cache.size
        &&& forall|k: int|
            0 <= k < cache.slots.len() && (#[trigger] cache.slots[k]).shard is Some
                ==> cache.slots[k].shard->0 < shard_span(cache.bits)
        &&& forall|j: int, k: int|
            0 <= j < cache.slots.len() && 0 <= k < cache.slots.len() && j != k && (
            #[trigger] cache.slots[j]).shard is Some ==> cache.slots[j].shard != (
            #[trigger] cache.slots[k]).shard
        &&& forall|k: int|
            0 <= k < cache.slots.len() && (#[trigger] cache.slots[k]).shard is None
                ==> !cache.slots[k].dirty
        &&& forall|k: int|
            0 <= k < cache.slots.len() ==> ((#[trigger] cache.slots[k]).dirty <==> total(
                cache.slots[k].pending,
            ) > 0)
        &&& forall|k: int, o: int|
            0 <= k < cache.slots.len() && 0 <= o < cache.size && (
            #[trigger] cache.slots[k].pending[o]) > 0 ==> {
                &&& cache.slots[k].shard is Some
                &&& o <= local_mask(cache.bits)
                &&& shard_base(cache.bits, cache.slots[k].shard->0) + o < self.counts.len()
            }
    }
}

} // verus!
