//! Shard geometry: how a bin count is split into shards and how many shards
//! are kept hot at once.

use crate::error::KernelError;
use vstd::prelude::*;

verus! {

/// Widest histogram that is handled as a single shard.
pub const SINGLE_SHARD_LIMIT: usize = 256;

/// Widest histogram of the small tier.
pub const SMALL_TIER_LIMIT: usize = 2048;

/// Widest histogram of the medium tier.
pub const MEDIUM_TIER_LIMIT: usize = 16384;

/// Shard bit-width chosen for a histogram of `len` bins.
pub open spec fn spec_shard_bits(len: int) -> int {
    if len <= 256 {
        0
    } else if len <= 2048 {
        6
    } else if len <= 16384 {
        8
    } else {
        10
    }
}

/// Number of physical counters per shard for a histogram of `len` bins.
pub open spec fn spec_shard_size(len: int) -> int {
    if len <= 256 {
        if len < 1 {
            1
        } else {
            len
        }
    } else if len <= 2048 {
        64
    } else if len <= 16384 {
        256
    } else {
        512
    }
}

/// Number of bins that one shard index spans, `2^shard_bits`.
pub open spec fn spec_shard_span(len: int) -> int {
    if len <= 256 {
        1
    } else if len <= 2048 {
        64
    } else if len <= 16384 {
        256
    } else {
        1024
    }
}

/// Most shards that are kept hot at once for a histogram of `len` bins.
pub open spec fn spec_slot_cap(len: int) -> int {
    if len <= 2048 {
        8
    } else if len <= 16384 {
        16
    } else {
        32
    }
}

/// Number of slots for a histogram of `len` bins: the number of shards the
/// bins spread over, rounded up, capped by the tier and at least one.
pub open spec fn spec_slot_count(len: int) -> int {
    let span = spec_shard_span(len);
    let shards = (len + span - 1) / span;
    let capped = if shards < spec_slot_cap(len) {
        shards
    } else {
        spec_slot_cap(len)
    };
    if capped < 1 {
        1
    } else {
        capped
    }
}

/// Shard bit-width and shard size for a histogram of `len` bins.
pub fn shard_params(len: usize) -> (params: (usize, usize))
    ensures
        params.0 == spec_shard_bits(len as int),
        params.1 == spec_shard_size(len as int),
{
    if len <= SINGLE_SHARD_LIMIT {
        (0, if len < 1 { 1 } else { len })
    } else if len <= SMALL_TIER_LIMIT {
        (6, 64)
    } else if len <= MEDIUM_TIER_LIMIT {
        (8, 256)
    } else {
        (10, 512)
    }
}

/// Number of shard buffers kept hot at once for a histogram of `len` bins.
pub fn shard_slot_count(len: usize) -> (slots: usize)
    ensures
        slots == spec_slot_count(len as int),
        1 <= slots <= 32,
{
    let (shard_bits, _) = shard_params(len);
    let shard_count: usize = if len == 0 {
        0
    } else if shard_bits == 0 {
        len
    } else {
        let last: usize = len - 1;
        let high: usize = last >> shard_bits;
        assert(high == last / (spec_shard_span(len as int) as usize)) by {
            assert(last >> 6usize == last / 64) by (bit_vector);
            assert(last >> 8usize == last / 256) by (bit_vector);
            assert(last >> 10usize == last / 1024) by (bit_vector);
        }
        high + 1
    };
    let cap: usize = if len <= SMALL_TIER_LIMIT {
        8
    } else if len <= MEDIUM_TIER_LIMIT {
        16
    } else {
        32
    };
    let capped: usize = if shard_count < cap { shard_count } else { cap };
    if capped < 1 { 1 } else { capped }
}

/// The shard geometry of one accumulation.
#[derive(Clone, Copy, Debug, PartialEq, Eq, Structural)]
pub struct ShardGeometry {
    /// Number of low bits of a bin index that address a position inside a shard.
    pub shard_bits: usize,
    /// Number of physical counters per shard.
    pub shard_size: usize,
    /// Number of shards kept hot at once.
    pub slot_count: usize,
}

/// The shard geometry for a histogram of `bin_count` bins. A histogram
/// without bins is refused.
pub fn select_geometry(bin_count: usize) -> (selected: Result<ShardGeometry, KernelError>)
    ensures
        bin_count == 0 <==> selected is Err,
        selected matches Err(e) ==> e == KernelError::InvalidBinCount,
        selected matches Ok(geometry) ==> {
            &&& geometry.shard_bits == spec_shard_bits(bin_count as int)
            &&& geometry.shard_size == spec_shard_size(bin_count as int)
            &&& geometry.slot_count == spec_slot_count(bin_count as int)
        },
{
    if bin_count == 0 {
        return Err(KernelError::InvalidBinCount);
    }
    let (shard_bits, shard_size) = shard_params(bin_count);
    let slot_count = shard_slot_count(bin_count);
    Ok(ShardGeometry { shard_bits, shard_size, slot_count })
}

} // verus!
