//! The two accumulation drivers, which feed a whole stream of bin assignments
//! through a shard cache, and the entry point that picks one of them.

use crate::cache::{kernel, ShardCache};
use crate::error::KernelError;
use crate::geometry::{select_geometry, shard_params, shard_slot_count};
use crate::laws::{lemma_begin, lemma_feed, lemma_feed_batched, lemma_outcome, lemma_run};
use crate::metrics::{Metrics, MetricsModel};
use crate::model::KernelModel;
use crate::tally::{
    as_nats, histogram, in_range_count, lemma_total_zeros, names_below, occurrences, total, zeros,
};
use vstd::prelude::*;

verus! {

/// Number of bin identifiers that the batched driver takes at a time.
pub const LANES: usize = 8;

/// The way the stream is walked: in batches of `LANES` entries, or entry by
/// entry.
#[derive(Clone, Copy, Debug, PartialEq, Eq, Structural)]
pub enum Driver {
    Batched,
    Scalar,
}

/// `counts` and `metrics` can take an accumulation of `rows` more rows: the
/// metrics are consistent and account for no more rows than the counts hold,
/// and no counter can overflow.
pub open spec fn can_take(counts: Seq<u32>, metrics: Metrics, rows: nat) -> bool {
    &&& metrics@.consistent()
    &&& metrics@.rows_written <= total(as_nats(counts))
    &&& total(as_nats(counts)) + rows <= u32::MAX
}

/// Feeds `data` through a fresh shard cache into `counts`, `LANES` entries at
/// a time as long as a full batch is left and entry by entry after that, and
/// flushes the cache.
pub fn accumulate_simd(data: &[u16], counts: &mut [u32], metrics: &mut Metrics)
    requires
        can_take(old(counts)@, *old(metrics), data@.len()),
    ensures
        final(counts)@.len() == old(counts)@.len(),
        kernel(
            KernelModel::run_batched(as_nats(old(counts)@), old(metrics)@, data@, LANES as nat).cache,
            final(counts)@,
            final(metrics)@,
        ) == KernelModel::run_batched(as_nats(old(counts)@), old(metrics)@, data@, LANES as nat),
        forall|b: int|
            0 <= b < old(counts)@.len() ==> #[trigger] final(counts)@[b] == old(counts)@[b]
                + occurrences(data@, b),
{
    let ghost begin = KernelModel::begin(as_nats(counts@), metrics@);
    proof {
        assert(counts@.len() == counts.len());
        lemma_begin(as_nats(counts@), metrics@);
        lemma_feed_batched(begin, data@, LANES as nat);
        lemma_run(as_nats(counts@), metrics@, data@);
        assert(data@.take(0) =~= Seq::<u16>::empty());
    }
    let (shard_bits, shard_size) = shard_params(counts.len());
    let shard_slots = shard_slot_count(counts.len());
    proof {
        assert(shard_size * shard_slots <= 16384) by (nonlinear_arith)
            requires
                shard_size <= 512,
                shard_slots <= 32,
        ;
    }
    let mut cache = ShardCache::new(shard_bits, shard_size, shard_slots);
    let mut index: usize = 0;
    while data.len() - index >= LANES
        invariant
            index <= data@.len(),
            cache.wf(),
            cache.shaped(),
            begin.inv(),
            begin.load() + data@.len() <= u32::MAX,
            begin.counts.len() == counts@.len(),
            kernel(cache@, counts@, metrics@) == begin.feed(data@.take(index as int)),
        decreases data@.len() - index,
    {
        let lane: [u16; 8] = [
            data[index],
            data[index + 1],
            data[index + 2],
            data[index + 3],
            data[index + 4],
            data[index + 5],
            data[index + 6],
            data[index + 7],
        ];
        let mut i: usize = 0;
        while i < LANES
            invariant
                i <= LANES,
                index + LANES <= data@.len(),
                cache.wf(),
                cache.shaped(),
                begin.inv(),
                begin.load() + data@.len() <= u32::MAX,
                begin.counts.len() == counts@.len(),
                forall|j: int| 0 <= j < LANES ==> lane@[j] == data@[index + j],
                kernel(cache@, counts@, metrics@) == begin.feed(data@.take(index + i)),
            decreases LANES - i,
        {
            proof {
                lemma_feed(begin, data@.take(index + i));
                data@.take(index + i).lemma_filter_len(names_below(begin.counts.len() as int));
                assert(data@.take(index + i + 1).drop_last() =~= data@.take(index + i));
            }
            cache.increment(lane[i], counts, metrics);
            i += 1;
        }
        index += LANES;
    }
    while index < data.len()
        invariant
            index <= data@.len(),
            cache.wf(),
            cache.shaped(),
            begin.inv(),
            begin.load() + data@.len() <= u32::MAX,
            begin.counts.len() == counts@.len(),
            kernel(cache@, counts@, metrics@) == begin.feed(data@.take(index as int)),
        decreases data@.len() - index,
    {
        proof {
            lemma_feed(begin, data@.take(index as int));
            data@.take(index as int).lemma_filter_len(names_below(begin.counts.len() as int));
            assert(data@.take(index + 1).drop_last() =~= data@.take(index as int));
        }
        cache.increment(data[index], counts, metrics);
        index += 1;
    }
    proof {
        assert(data@.take(index as int) =~= data@);
        lemma_feed(begin, data@);
        data@.lemma_filter_len(names_below(begin.counts.len() as int));
    }
    cache.flush_all(counts, metrics);
    proof {
        let end = KernelModel::run(begin.counts, begin.metrics, data@);
        assert forall|b: int| 0 <= b < old(counts)@.len() implies #[trigger] counts@[b] == old(
            counts,
        )@[b] + occurrences(data@, b) by {
            assert(as_nats(counts@)[b] == end.counts[b]);
        }
    }
}

/// Feeds `data` through a fresh shard cache into `counts`, entry by entry,
/// and flushes the cache.
pub fn accumulate_scalar(data: &[u16], counts: &mut [u32], metrics: &mut Metrics)
    requires
        can_take(old(counts)@, *old(metrics), data@.len()),
    ensures
        final(counts)@.len() == old(counts)@.len(),
        kernel(
            KernelModel::run(as_nats(old(counts)@), old(metrics)@, data@).cache,
            final(counts)@,
            final(metrics)@,
        ) == KernelModel::run(as_nats(old(counts)@), old(metrics)@, data@),
        forall|b: int|
            0 <= b < old(counts)@.len() ==> #[trigger] final(counts)@[b] == old(counts)@[b]
                + occurrences(data@, b),
{
    accumulate_scalar_common(data, counts, metrics);
}

/// The entry-by-entry walk that the scalar driver is made of.
pub fn accumulate_scalar_common(data: &[u16], counts: &mut [u32], metrics: &mut Metrics)
    requires
        can_take(old(counts)@, *old(metrics), data@.len()),
    ensures
        final(counts)@.len() == old(counts)@.len(),
        kernel(
            KernelModel::run(as_nats(old(counts)@), old(metrics)@, data@).cache,
            final(counts)@,
            final(metrics)@,
        ) == KernelModel::run(as_nats(old(counts)@), old(metrics)@, data@),
        forall|b: int|
            0 <= b < old(counts)@.len() ==> #[trigger] final(counts)@[b] == old(counts)@[b]
                + occurrences(data@, b),
{
    let ghost begin = KernelModel::begin(as_nats(counts@), metrics@);
    proof {
        assert(counts@.len() == counts.len());
        lemma_begin(as_nats(counts@), metrics@);
        lemma_run(as_nats(counts@), metrics@, data@);
        assert(data@.take(0) =~= Seq::<u16>::empty());
    }
    let (shard_bits, shard_size) = shard_params(counts.len());
    let shard_slots = shard_slot_count(counts.len());
    proof {
        assert(shard_size * shard_slots <= 16384) by (nonlinear_arith)
            requires
                shard_size <= 512,
                shard_slots <= 32,
        ;
    }
    let mut cache = ShardCache::new(shard_bits, shard_size, shard_slots);
    let mut index: usize = 0;
    while index < data.len()
        invariant
            index <= data@.len(),
            cache.wf(),
            cache.shaped(),
            begin.inv(),
            begin.load() + data@.len() <= u32::MAX,
            begin.counts.len() == counts@.len(),
            kernel(cache@, counts@, metrics@) == begin.feed(data@.take(index as int)),
        decreases data@.len() - index,
    {
        proof {
            lemma_feed(begin, data@.take(index as int));
            data@.take(index as int).lemma_filter_len(names_below(begin.counts.len() as int));
            assert(data@.take(index + 1).drop_last() =~= data@.take(index as int));
        }
        cache.increment(data[index], counts, metrics);
        index += 1;
    }
    proof {
        assert(data@.take(index as int) =~= data@);
        lemma_feed(begin, data@);
        data@.lemma_filter_len(names_below(begin.counts.len() as int));
    }
    cache.flush_all(counts, metrics);
    proof {
        let end = KernelModel::run(begin.counts, begin.metrics, data@);
        assert forall|b: int| 0 <= b < old(counts)@.len() implies #[trigger] counts@[b] == old(
            counts,
        )@[b] + occurrences(data@, b) by {
            assert(as_nats(counts@)[b] == end.counts[b]);
        }
    }
}

/// Counts the entries of `data` per bin into fresh counts for `bin_count`
/// bins, with the driver asked for, and leaves in `metrics` how the cache
/// behaved. A histogram without bins is refused before anything is touched.
pub fn accumulate_slice(data: &[u16], bin_count: u32, driver: Driver, metrics: &mut Metrics) -> (result:
    Result<Vec<u32>, KernelError>)
    requires
        data@.len() <= u32::MAX,
    ensures
        bin_count == 0 <==> result is Err,
        result matches Err(e) ==> e == KernelError::InvalidBinCount && *final(metrics) == *old(
            metrics,
        ),
        result matches Ok(counts) ==> {
            &&& as_nats(counts@) == KernelModel::outcome(data@, bin_count as nat).counts
            &&& final(metrics)@ == KernelModel::outcome(data@, bin_count as nat).metrics
            &&& as_nats(counts@) == histogram(data@, bin_count as nat)
            &&& total(as_nats(counts@)) == in_range_count(data@, bin_count as int)
        },
{
    match select_geometry(bin_count as usize) {
        Err(e) => {
            return Err(e);
        },
        Ok(_) => {},
    }
    let mut counts: Vec<u32> = vec![0u32; bin_count as usize];
    metrics.reset();
    proof {
        assert(as_nats(counts@) =~= zeros(bin_count as nat));
        lemma_total_zeros(bin_count as nat);
        lemma_feed_batched(
            KernelModel::begin(zeros(bin_count as nat), MetricsModel::zero()),
            data@,
            LANES as nat,
        );
        lemma_outcome(data@, bin_count as nat);
    }
    match driver {
        Driver::Batched => {
            accumulate_simd(data, counts.as_mut_slice(), metrics);
        },
        Driver::Scalar => {
            accumulate_scalar(data, counts.as_mut_slice(), metrics);
        },
    }
    metrics.finalise();
    Ok(counts)
}

} // verus!
