//! How a bin index is split into a shard index and a position inside the
//! shard, and how the two are put together again.

use vstd::prelude::*;

verus! {

/// Shard that `bin` belongs to. With a bit-width of zero the whole bin space
/// is one shard.
pub open spec fn shard_index(bits: usize, bin: usize) -> usize {
    if bits == 0 {
        0
    } else {
        bin >> bits
    }
}

/// Mask that keeps the position of a bin inside its shard.
pub open spec fn local_mask(bits: usize) -> usize {
    if bits == 0 {
        usize::MAX
    } else {
        ((1usize << bits) - 1) as usize
    }
}

/// Position of `bin` inside its shard.
pub open spec fn local_index(bits: usize, bin: usize) -> usize {
    if bits == 0 {
        bin
    } else {
        bin & local_mask(bits)
    }
}

/// First bin of shard `shard`.
pub open spec fn shard_base(bits: usize, shard: usize) -> usize {
    shard << bits
}

/// Number of shards that 16-bit bin identifiers can address.
pub open spec fn shard_span(bits: usize) -> usize {
    if bits == 0 {
        1
    } else {
        1usize << ((16 - bits) as usize)
    }
}

/// The powers of two that the cache computes stay inside the machine word.
pub proof fn lemma_powers(bits: usize)
    requires
        0 < bits <= 16,
    ensures
        1 <= (1usize << bits) <= 0x10000,
        1 <= (1usize << ((16 - bits) as usize)) <= 0x8000,
        local_mask(bits) < 0x10000,
        1 <= shard_span(bits) <= 0x8000,
{
    assert(1 <= (1usize << bits) <= 0x10000) by (bit_vector)
        requires
            0 < bits <= 16,
    ;
    assert(1 <= (1usize << ((16 - bits) as usize)) <= 0x8000) by (bit_vector)
        requires
            0 < bits <= 16,
    ;
}

/// A bin splits into a shard and a position under the mask, and the two give
/// the bin back. The shard lies inside the addressable span exactly when the
/// bin is a 16-bit one, unless the whole bin space is one shard.
pub proof fn lemma_split(bits: usize, bin: usize)
    requires
        bits <= 16,
    ensures
        local_index(bits, bin) <= local_mask(bits),
        local_index(bits, bin) <= bin,
        shard_base(bits, shard_index(bits, bin)) + local_index(bits, bin) == bin,
        bin <= 0xffff ==> shard_index(bits, bin) < shard_span(bits),
        bits > 0 && bin > 0xffff ==> shard_index(bits, bin) >= shard_span(bits),
{
    if bits == 0 {
        assert(0usize << 0usize == 0usize) by (bit_vector);
    } else {
        lemma_powers(bits);
        assert(bin <= 0xffff ==> (bin >> bits) < (1usize << ((16 - bits) as usize)))
            by (bit_vector)
            requires
                0 < bits <= 16,
        ;
        assert(bin > 0xffff ==> (bin >> bits) >= (1usize << ((16 - bits) as usize)))
            by (bit_vector)
            requires
                0 < bits <= 16,
        ;
        assert((bin & (((1usize << bits) - 1) as usize)) <= (((1usize << bits) - 1) as usize))
            by (bit_vector)
            requires
                0 < bits <= 16,
        ;
        assert((bin & (((1usize << bits) - 1) as usize)) <= bin) by (bit_vector)
            requires
                0 < bits <= 16,
        ;
        assert(((bin >> bits) << bits) + (bin & (((1usize << bits) - 1) as usize)) == bin)
            by (bit_vector)
            requires
                0 < bits <= 16,
        ;
    }
}

/// A shard inside the addressable span and a position under the mask name a
/// bin that splits into that shard and that position.
pub proof fn lemma_join(bits: usize, shard: usize, off: usize)
    requires
        bits <= 16,
        shard < shard_span(bits),
        off <= local_mask(bits),
    ensures
        shard_base(bits, shard) + off <= usize::MAX,
        bits > 0 ==> shard_base(bits, shard) + off <= 0xffff,
        bits == 0 ==> shard_base(bits, shard) == 0,
        shard_index(bits, (shard_base(bits, shard) + off) as usize) == shard,
        local_index(bits, (shard_base(bits, shard) + off) as usize) == off,
{
    if bits == 0 {
        assert(0usize << 0usize == 0usize) by (bit_vector);
    } else {
        lemma_powers(bits);
        assert((shard << bits) + off <= 0xffff && (((((shard << bits) + off) as usize) >> bits)
            == shard) && ((((shard << bits) + off) as usize) & (((1usize << bits) - 1) as usize))
            == off) by (bit_vector)
            requires
                0 < bits <= 16,
                shard < (1usize << ((16 - bits) as usize)),
                off <= (((1usize << bits) - 1) as usize),
        ;
    }
}

} // verus!
