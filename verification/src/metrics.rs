//! Counters that describe how the shard cache behaved during an accumulation.

use vstd::prelude::*;

verus! {

/// Why a slot is flushed: to make room for another shard, or because the
/// accumulation is over.
#[derive(Clone, Copy, Debug, PartialEq, Eq, Structural)]
pub enum FlushReason {
    Evict,
    Final,
}

/// Cache behaviour counters, gathered between a reset and the next read.
#[derive(Clone, Copy, Debug, PartialEq, Eq, Structural)]
pub struct Metrics {
    /// Flushes that committed at least one bin.
    pub flushes: u64,
    /// Flushes made to hand a slot to another shard.
    pub evictions: u64,
    /// Flushes made at the end of an accumulation.
    pub final_flushes: u64,
    /// Bins committed by flushes, a bin counted once per flush that touches it.
    pub bins_touched: u64,
    /// Rows committed by flushes.
    pub rows_written: u64,
}

/// The counters as natural numbers.
pub struct MetricsModel {
    pub flushes: nat,
    pub evictions: nat,
    pub final_flushes: nat,
    pub bins_touched: nat,
    pub rows_written: nat,
}

impl MetricsModel {
    /// All counters at zero.
    pub open spec fn zero() -> MetricsModel {
        MetricsModel { flushes: 0, evictions: 0, final_flushes: 0, bins_touched: 0, rows_written: 0 }
    }

    /// The counters after one flush that committed `bins` bins and `rows` rows.
    pub open spec fn record(self, reason: FlushReason, bins: nat, rows: nat) -> MetricsModel {
        MetricsModel {
            flushes: self.flushes + 1,
            evictions: self.evictions + if reason == FlushReason::Evict {
                1nat
            } else {
                0nat
            },
            final_flushes: self.final_flushes + if reason == FlushReason::Final {
                1nat
            } else {
                0nat
            },
            bins_touched: self.bins_touched + bins,
            rows_written: self.rows_written + rows,
        }
    }

    /// Every flush has one reason, commits at least one bin, and every
    /// committed bin carries at least one row.
    pub open spec fn consistent(self) -> bool {
        &&& self.flushes == self.evictions + self.final_flushes
        &&& self.flushes <= self.bins_touched
        &&& self.bins_touched <= self.rows_written
    }
}

impl View for Metrics {
    type V = MetricsModel;

    open spec fn view(&self) -> MetricsModel {
        MetricsModel {
            flushes: self.flushes as nat,
            evictions: self.evictions as nat,
            final_flushes: self.final_flushes as nat,
            bins_touched: self.bins_touched as nat,
            rows_written: self.rows_written as nat,
        }
    }
}

impl Metrics {
    /// Counters at zero.
    pub fn new() -> (metrics: Metrics)
        ensures
            metrics@ == MetricsModel::zero(),
    {
        Metrics { flushes: 0, evictions: 0, final_flushes: 0, bins_touched: 0, rows_written: 0 }
    }

    /// Puts every counter back to zero.
    pub fn reset(&mut self)
        ensures
            final(self)@ == MetricsModel::zero(),
    {
        *self = Metrics::new();
    }

    /// Closes the counters of one accumulation. Nothing is derived from them
    /// yet, so they stay as they are.
    pub fn finalise(&mut self)
        ensures
            *final(self) == *old(self),
    {
    }

    /// Counts one flush that committed `bins` bins and `rows` rows.
    pub fn record_flush(&mut self, reason: FlushReason, bins: u32, rows: u64)
        requires
            old(self)@.consistent(),
            0 < bins <= rows,
            old(self).rows_written + rows <= u64::MAX,
        ensures
            final(self)@ == old(self)@.record(reason, bins as nat, rows as nat),
            final(self)@.consistent(),
    {
        self.flushes += 1;
        self.bins_touched += bins as u64;
        self.rows_written += rows;
        match reason {
            FlushReason::Evict => {
                self.evictions += 1;
            },
            FlushReason::Final => {
                self.final_flushes += 1;
            },
        }
    }
}

impl Default for Metrics {
    fn default() -> (metrics: Metrics)
        ensures
            metrics@ == MetricsModel::zero(),
    {
        Metrics::new()
    }
}

} // verus!
