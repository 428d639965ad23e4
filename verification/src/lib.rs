//! Histogram-delta accumulation kernels.
//!
//! A stream of 16-bit bin assignments is turned into per-bin occurrence
//! counts through a small write-combining shard cache.

pub mod address;
pub mod cache;
pub mod context;
pub mod drivers;
pub mod error;
pub mod geometry;
pub mod laws;
pub mod metrics;
pub mod model;
pub mod tally;

pub use context::{
    accumulate_bins, accumulate_scratch, reset_metrics, scratch_buffer, take_metrics, KernelContext,
};
pub use drivers::Driver;
pub use error::KernelError;
pub use metrics::Metrics;
