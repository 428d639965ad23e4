//! The per-caller context, which owns what survives from one call to the
//! next: the scratch buffer and the metrics.

use crate::drivers::{accumulate_slice, Driver};
use crate::error::KernelError;
use crate::metrics::{Metrics, MetricsModel};
use crate::model::KernelModel;
use crate::tally::{as_nats, histogram, in_range_count, total};
use vstd::prelude::*;
use vstd::slice::slice_subrange;

verus! {

/// What one caller keeps between calls: a scratch buffer for bin
/// identifiers, which only grows, the metrics of the last accumulation,
/// and the driver that its accumulations use.
pub struct KernelContext {
    scratch: Vec<u16>,
    metrics: Metrics,
    driver: Driver,
}

/// What a context holds.
pub struct ContextModel {
    pub scratch: Seq<u16>,
    pub metrics: Metrics,
    pub driver: Driver,
}

/// The scratch contents after `size` elements were reserved: as before, with
/// zeros appended where it was shorter than `size`.
pub open spec fn reserved(scratch: Seq<u16>, size: nat) -> Seq<u16> {
    if scratch.len() < size {
        scratch + Seq::new((size - scratch.len()) as nat, |i: int| 0u16)
    } else {
        scratch
    }
}

impl ContextModel {
    /// The context once its metrics were read: the metrics are back at zero,
    /// the rest is as it was.
    pub open spec fn after_take(self) -> ContextModel {
        ContextModel {
            metrics: Metrics {
                flushes: 0,
                evictions: 0,
                final_flushes: 0,
                bins_touched: 0,
                rows_written: 0,
            },
            ..self
        }
    }

    /// The context once `size` scratch elements were reserved.
    pub open spec fn after_reserve(self, size: nat) -> ContextModel {
        ContextModel { scratch: reserved(self.scratch, size), ..self }
    }
}

/// Reading the metrics twice in a row gives all zeros the second time, and
/// the second read changes nothing.
pub proof fn lemma_second_take_is_zero(ctx: ContextModel)
    ensures
        ctx.after_take().metrics@ == MetricsModel::zero(),
        ctx.after_take().after_take() == ctx.after_take(),
{
}

/// The scratch buffer only grows: a reservation gives at least what was
/// asked for and keeps what was there; a second reservation of no more than
/// the first changes nothing, and a larger one grows the buffer to at least
/// its size.
pub proof fn lemma_reserve_monotonic(scratch: Seq<u16>, first: nat, second: nat)
    ensures
        reserved(scratch, first).len() == if scratch.len() < first {
            first
        } else {
            scratch.len()
        },
        reserved(scratch, first).subrange(0, scratch.len() as int) == scratch,
        second <= first ==> reserved(reserved(scratch, first), second) == reserved(scratch, first),
        second > first ==> reserved(reserved(scratch, first), second).len() >= second,
{
    assert(reserved(scratch, first).subrange(0, scratch.len() as int) =~= scratch);
}

impl View for KernelContext {
    type V = ContextModel;

    closed spec fn view(&self) -> ContextModel {
        ContextModel { scratch: self.scratch@, metrics: self.metrics, driver: self.driver }
    }
}

impl KernelContext {
    /// A context with an empty scratch buffer and the metrics at zero, whose
    /// accumulations use `driver`.
    pub fn new(driver: Driver) -> (ctx: KernelContext)
        ensures
            ctx@.scratch.len() == 0,
            ctx@.metrics@ == MetricsModel::zero(),
            ctx@.driver == driver,
    {
        KernelContext { scratch: Vec::new(), metrics: Metrics::new(), driver }
    }

    /// Number of elements that the scratch buffer holds.
    pub fn scratch_capacity(&self) -> (capacity: usize)
        ensures
            capacity == self@.scratch.len(),
    {
        self.scratch.len()
    }
}

/// Reserves `size` scratch elements and hands out the first `size` elements
/// of the scratch buffer for the caller to fill. The buffer grows where it is
/// shorter than `size` and never shrinks; what it held stays.
pub fn scratch_buffer(ctx: &mut KernelContext, size: u32) -> (view: &mut [u16])
    ensures
        view@ == old(ctx)@.after_reserve(size as nat).scratch.subrange(0, size as int),
        final(ctx)@ == (ContextModel {
            scratch: final(view)@ + old(ctx)@.after_reserve(size as nat).scratch.skip(size as int),
            ..old(ctx)@
        }),
{
    let size: usize = size as usize;
    if ctx.scratch.len() < size {
        ctx.scratch.resize(size, 0);
    }
    proof {
        assert(ctx.scratch@ =~= reserved(old(ctx)@.scratch, size as nat));
    }
    let (head, _tail) = ctx.scratch.as_mut_slice().split_at_mut(size);
    head
}

/// Counts the first `len` scratch elements per bin into fresh counts for
/// `bin_count` bins. Fails where the scratch buffer holds fewer than `len`
/// elements, and where `bin_count` is zero.
pub fn accumulate_scratch(ctx: &mut KernelContext, len: u32, bin_count: u32) -> (result: Result<
    Vec<u32>,
    KernelError,
>)
    ensures
        final(ctx)@.scratch == old(ctx)@.scratch,
        final(ctx)@.driver == old(ctx)@.driver,
        result is Err <==> len > old(ctx)@.scratch.len() || bin_count == 0,
        result matches Err(e) ==> {
            &&& e == if len > old(ctx)@.scratch.len() {
                KernelError::ScratchExceeded
            } else {
                KernelError::InvalidBinCount
            }
            &&& final(ctx)@.metrics == old(ctx)@.metrics
        },
        result matches Ok(counts) ==> {
            let data = old(ctx)@.scratch.subrange(0, len as int);
            &&& as_nats(counts@) == KernelModel::outcome(data, bin_count as nat).counts
            &&& final(ctx)@.metrics@ == KernelModel::outcome(data, bin_count as nat).metrics
            &&& as_nats(counts@) == histogram(data, bin_count as nat)
            &&& total(as_nats(counts@)) == in_range_count(data, bin_count as int)
        },
{
    let len: usize = len as usize;
    if len > ctx.scratch.len() {
        return Err(KernelError::ScratchExceeded);
    }
    let data = slice_subrange(ctx.scratch.as_slice(), 0, len);
    accumulate_slice(data, bin_count, ctx.driver, &mut ctx.metrics)
}

/// Counts the entries of `bins` per bin into fresh counts for `bin_count`
/// bins. Fails where `bin_count` is zero.
pub fn accumulate_bins(ctx: &mut KernelContext, bins: &[u16], bin_count: u32) -> (result: Result<
    Vec<u32>,
    KernelError,
>)
    requires
        bins@.len() <= u32::MAX,
    ensures
        final(ctx)@.scratch == old(ctx)@.scratch,
        final(ctx)@.driver == old(ctx)@.driver,
        result is Err <==> bin_count == 0,
        result matches Err(e) ==> e == KernelError::InvalidBinCount && final(ctx)@.metrics == old(
            ctx,
        )@.metrics,
        result matches Ok(counts) ==> {
            &&& as_nats(counts@) == KernelModel::outcome(bins@, bin_count as nat).counts
            &&& final(ctx)@.metrics@ == KernelModel::outcome(bins@, bin_count as nat).metrics
            &&& as_nats(counts@) == histogram(bins@, bin_count as nat)
            &&& total(as_nats(counts@)) == in_range_count(bins@, bin_count as int)
        },
{
    accumulate_slice(bins, bin_count, ctx.driver, &mut ctx.metrics)
}

/// Puts the metrics back to zero.
pub fn reset_metrics(ctx: &mut KernelContext)
    ensures
        final(ctx)@ == old(ctx)@.after_take(),
{
    ctx.metrics.reset();
}

/// Returns the metrics as they stand and puts them back to zero.
pub fn take_metrics(ctx: &mut KernelContext) -> (snapshot: Metrics)
    ensures
        snapshot == old(ctx)@.metrics,
        final(ctx)@ == old(ctx)@.after_take(),
{
    let snapshot = ctx.metrics;
    ctx.metrics.reset();
    snapshot
}

} // verus!
