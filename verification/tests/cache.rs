use histogram_kernels::cache::ShardCache;
use histogram_kernels::drivers::{
    accumulate_scalar, accumulate_scalar_common, accumulate_simd, accumulate_slice, Driver, LANES,
};
use histogram_kernels::error::KernelError;
use histogram_kernels::geometry::{select_geometry, shard_params, shard_slot_count, ShardGeometry};
use histogram_kernels::metrics::{FlushReason, Metrics};

fn metrics(flushes: u64, evictions: u64, final_flushes: u64, bins: u64, rows: u64) -> Metrics {
    Metrics { flushes, evictions, final_flushes, bins_touched: bins, rows_written: rows }
}

#[test]
fn shard_params_follow_the_tiers() {
    assert_eq!(shard_params(0), (0, 1));
    assert_eq!(shard_params(1), (0, 1));
    assert_eq!(shard_params(2), (0, 2));
    assert_eq!(shard_params(256), (0, 256));
    assert_eq!(shard_params(257), (6, 64));
    assert_eq!(shard_params(2048), (6, 64));
    assert_eq!(shard_params(2049), (8, 256));
    assert_eq!(shard_params(16384), (8, 256));
    assert_eq!(shard_params(16385), (10, 512));
    assert_eq!(shard_params(65536), (10, 512));
    assert_eq!(shard_params(1 << 20), (10, 512));
}

#[test]
fn slot_count_is_the_capped_shard_count() {
    assert_eq!(shard_slot_count(0), 1);
    assert_eq!(shard_slot_count(1), 1);
    assert_eq!(shard_slot_count(5), 5);
    assert_eq!(shard_slot_count(8), 8);
    assert_eq!(shard_slot_count(9), 8);
    assert_eq!(shard_slot_count(256), 8);
    assert_eq!(shard_slot_count(257), 5);
    assert_eq!(shard_slot_count(512), 8);
    assert_eq!(shard_slot_count(2048), 8);
    assert_eq!(shard_slot_count(2049), 9);
    assert_eq!(shard_slot_count(4096), 16);
    assert_eq!(shard_slot_count(4097), 16);
    assert_eq!(shard_slot_count(16384), 16);
    assert_eq!(shard_slot_count(16385), 17);
    assert_eq!(shard_slot_count(32768), 32);
    assert_eq!(shard_slot_count(40000), 32);
    assert_eq!(shard_slot_count(65536), 32);
}

#[test]
fn geometry_is_refused_without_bins() {
    assert_eq!(select_geometry(0), Err(KernelError::InvalidBinCount));
    assert_eq!(
        select_geometry(1),
        Ok(ShardGeometry { shard_bits: 0, shard_size: 1, slot_count: 1 })
    );
    assert_eq!(
        select_geometry(300),
        Ok(ShardGeometry { shard_bits: 6, shard_size: 64, slot_count: 5 })
    );
    assert_eq!(
        select_geometry(3000),
        Ok(ShardGeometry { shard_bits: 8, shard_size: 256, slot_count: 12 })
    );
    assert_eq!(
        select_geometry(20000),
        Ok(ShardGeometry { shard_bits: 10, shard_size: 512, slot_count: 20 })
    );
}

#[test]
fn metrics_start_at_zero_and_reset() {
    assert_eq!(Metrics::new(), metrics(0, 0, 0, 0, 0));
    assert_eq!(Metrics::default(), metrics(0, 0, 0, 0, 0));
    let mut m = metrics(3, 1, 2, 5, 9);
    m.finalise();
    assert_eq!(m, metrics(3, 1, 2, 5, 9));
    m.reset();
    assert_eq!(m, metrics(0, 0, 0, 0, 0));
}

#[test]
fn record_flush_counts_by_reason() {
    let mut m = Metrics::new();
    m.record_flush(FlushReason::Evict, 2, 7);
    assert_eq!(m, metrics(1, 1, 0, 2, 7));
    m.record_flush(FlushReason::Final, 1, 1);
    assert_eq!(m, metrics(2, 1, 1, 3, 8));
}

#[test]
fn increments_are_held_back_until_the_flush() {
    let mut cache = ShardCache::new(0, 4, 1);
    let mut counts = vec![0u32; 4];
    let mut m = Metrics::new();
    cache.increment(1, &mut counts, &mut m);
    cache.increment(1, &mut counts, &mut m);
    cache.increment(3, &mut counts, &mut m);
    assert_eq!(counts, vec![0, 0, 0, 0]);
    assert_eq!(m, metrics(0, 0, 0, 0, 0));
    cache.flush_all(&mut counts, &mut m);
    assert_eq!(counts, vec![0, 2, 0, 1]);
    assert_eq!(m, metrics(1, 0, 1, 2, 3));
    cache.flush_all(&mut counts, &mut m);
    assert_eq!(counts, vec![0, 2, 0, 1]);
    assert_eq!(m, metrics(1, 0, 1, 2, 3));
}

#[test]
fn increment_outside_the_counts_is_dropped() {
    let mut cache = ShardCache::new(0, 4, 1);
    let mut counts = vec![0u32; 4];
    let mut m = Metrics::new();
    cache.increment(4, &mut counts, &mut m);
    cache.increment(65535, &mut counts, &mut m);
    cache.flush_all(&mut counts, &mut m);
    assert_eq!(counts, vec![0, 0, 0, 0]);
    assert_eq!(m, metrics(0, 0, 0, 0, 0));
}

#[test]
fn full_cache_evicts_round_robin() {
    let mut cache = ShardCache::new(6, 64, 2);
    let mut counts = vec![0u32; 300];
    let mut m = Metrics::new();
    cache.increment(0, &mut counts, &mut m);
    cache.increment(64, &mut counts, &mut m);
    assert_eq!(m, metrics(0, 0, 0, 0, 0));
    // Shard 2 takes the slot of shard 0, which is flushed.
    cache.increment(128, &mut counts, &mut m);
    assert_eq!(counts[0], 1);
    assert_eq!(counts[64], 0);
    assert_eq!(m, metrics(1, 1, 0, 1, 1));
    // Shard 0 comes back and takes the slot of shard 1.
    cache.increment(0, &mut counts, &mut m);
    assert_eq!(counts[64], 1);
    assert_eq!(counts[128], 0);
    assert_eq!(m, metrics(2, 2, 0, 2, 2));
    // Shard 2 is still held: no eviction.
    cache.increment(129, &mut counts, &mut m);
    assert_eq!(m, metrics(2, 2, 0, 2, 2));
    cache.flush_all(&mut counts, &mut m);
    assert_eq!(counts[0], 2);
    assert_eq!(counts[64], 1);
    assert_eq!(counts[128], 1);
    assert_eq!(counts[129], 1);
    assert_eq!(counts.iter().sum::<u32>(), 5);
    assert_eq!(m, metrics(4, 2, 2, 5, 5));
}

#[test]
fn ensure_slot_hits_claims_and_evicts() {
    let mut cache = ShardCache::new(6, 64, 2);
    let mut counts = vec![0u32; 300];
    let mut m = Metrics::new();
    assert_eq!(cache.ensure_slot(3, &mut counts, &mut m), 0);
    assert_eq!(cache.ensure_slot(1, &mut counts, &mut m), 1);
    assert_eq!(cache.ensure_slot(3, &mut counts, &mut m), 0);
    assert_eq!(cache.ensure_slot(1, &mut counts, &mut m), 1);
    // Clean slots are reused without a flush being counted.
    assert_eq!(cache.ensure_slot(2, &mut counts, &mut m), 0);
    assert_eq!(cache.ensure_slot(3, &mut counts, &mut m), 1);
    assert_eq!(cache.ensure_slot(2, &mut counts, &mut m), 0);
    assert_eq!(m, metrics(0, 0, 0, 0, 0));
}

#[test]
fn flush_slot_commits_one_slot() {
    let mut cache = ShardCache::new(6, 64, 2);
    let mut counts = vec![0u32; 300];
    let mut m = Metrics::new();
    cache.increment(70, &mut counts, &mut m);
    cache.increment(70, &mut counts, &mut m);
    cache.increment(71, &mut counts, &mut m);
    cache.increment(200, &mut counts, &mut m);
    cache.flush_slot(1, &mut counts, &mut m, FlushReason::Final);
    assert_eq!(counts[200], 1);
    assert_eq!(counts[70], 0);
    assert_eq!(m, metrics(1, 0, 1, 1, 1));
    cache.flush_slot(0, &mut counts, &mut m, FlushReason::Evict);
    assert_eq!(counts[70], 2);
    assert_eq!(counts[71], 1);
    assert_eq!(m, metrics(2, 1, 1, 3, 4));
    // A clean slot is left alone.
    cache.flush_slot(0, &mut counts, &mut m, FlushReason::Evict);
    assert_eq!(m, metrics(2, 1, 1, 3, 4));
}

#[test]
fn reset_slot_counts_discards_what_is_held_back() {
    let mut cache = ShardCache::new(0, 4, 1);
    let mut counts = vec![0u32; 4];
    let mut m = Metrics::new();
    cache.reset_slot_counts(0);
    cache.increment(2, &mut counts, &mut m);
    cache.flush_all(&mut counts, &mut m);
    assert_eq!(counts, vec![0, 0, 1, 0]);
}

#[test]
fn a_cache_has_at_least_one_slot() {
    let mut cache = ShardCache::new(0, 3, 0);
    let mut counts = vec![0u32; 3];
    let mut m = Metrics::new();
    assert_eq!(cache.ensure_slot(0, &mut counts, &mut m), 0);
    cache.increment(2, &mut counts, &mut m);
    cache.flush_all(&mut counts, &mut m);
    assert_eq!(counts, vec![0, 0, 1]);
}

#[test]
fn positions_without_a_counter_bypass_the_cache() {
    let mut cache = ShardCache::new(10, 512, 4);
    let mut counts = vec![0u32; 20000];
    let mut m = Metrics::new();
    cache.increment(600, &mut counts, &mut m);
    assert_eq!(counts[600], 1);
    cache.increment(511, &mut counts, &mut m);
    assert_eq!(counts[511], 0);
    cache.increment(512, &mut counts, &mut m);
    assert_eq!(counts[512], 1);
    cache.flush_all(&mut counts, &mut m);
    assert_eq!(counts[511], 1);
    assert_eq!(counts.iter().sum::<u32>(), 3);
    assert_eq!(m, metrics(1, 0, 1, 1, 1));
}

#[test]
fn largest_tier_counts_bypassed_rows_but_does_not_write_them() {
    let mut m = Metrics::new();
    let counts = accumulate_slice(&[600, 100, 1024, 600], 20000, Driver::Scalar, &mut m).unwrap();
    assert_eq!(counts.len(), 20000);
    assert_eq!(counts[600], 2);
    assert_eq!(counts[100], 1);
    assert_eq!(counts[1024], 1);
    assert_eq!(counts.iter().sum::<u32>(), 4);
    assert_eq!(m, metrics(2, 0, 2, 2, 2));
}

#[test]
fn highest_bin_identifier_is_counted() {
    let mut m = Metrics::new();
    let counts = accumulate_slice(&[65535, 65023, 65535], 65536, Driver::Batched, &mut m).unwrap();
    assert_eq!(counts[65535], 2);
    assert_eq!(counts[65023], 1);
    assert_eq!(m, metrics(1, 0, 1, 1, 1));
    let wide = accumulate_slice(&[65535, 0], 70000, Driver::Scalar, &mut m).unwrap();
    assert_eq!(wide.len(), 70000);
    assert_eq!(wide[65535], 1);
    assert_eq!(wide[0], 1);
    assert_eq!(wide.iter().sum::<u32>(), 2);
}

#[test]
fn small_tier_evicts_when_more_shards_than_slots_are_touched() {
    let bins: Vec<u16> = (0..9).map(|s| s * 64).collect();
    let mut m = Metrics::new();
    let counts = accumulate_slice(&bins, 2048, Driver::Scalar, &mut m).unwrap();
    for s in 0..9usize {
        assert_eq!(counts[s * 64], 1);
    }
    assert_eq!(counts.iter().sum::<u32>(), 9);
    assert_eq!(m, metrics(9, 1, 8, 9, 9));
}

#[test]
fn entry_point_refuses_zero_bins_and_keeps_metrics() {
    let mut m = metrics(4, 2, 2, 5, 5);
    assert_eq!(accumulate_slice(&[1, 2], 0, Driver::Scalar, &mut m), Err(KernelError::InvalidBinCount));
    assert_eq!(accumulate_slice(&[], 0, Driver::Batched, &mut m), Err(KernelError::InvalidBinCount));
    assert_eq!(m, metrics(4, 2, 2, 5, 5));
}

#[test]
fn entry_point_resets_metrics_first() {
    let mut m = metrics(4, 2, 2, 5, 5);
    assert_eq!(accumulate_slice(&[], 3, Driver::Scalar, &mut m), Ok(vec![0, 0, 0]));
    assert_eq!(m, metrics(0, 0, 0, 0, 0));
}

#[test]
fn drivers_add_onto_the_counts_they_are_given() {
    let data = [0u16, 0, 2, 9, 1, 1, 1, 2, 2, 0, 0];
    assert!(data.len() > LANES);
    let mut batched = vec![1u32, 2, 3];
    let mut scalar = vec![1u32, 2, 3];
    let mut common = vec![1u32, 2, 3];
    let mut mb = Metrics::new();
    let mut ms = Metrics::new();
    let mut mc = Metrics::new();
    accumulate_simd(&data, &mut batched, &mut mb);
    accumulate_scalar(&data, &mut scalar, &mut ms);
    accumulate_scalar_common(&data, &mut common, &mut mc);
    assert_eq!(batched, vec![5, 5, 6]);
    assert_eq!(scalar, vec![5, 5, 6]);
    assert_eq!(common, vec![5, 5, 6]);
    assert_eq!(mb, metrics(1, 0, 1, 3, 10));
    assert_eq!(ms, mb);
    assert_eq!(mc, mb);
}

fn stream(len: usize, seed: u32, modulus: u32) -> Vec<u16> {
    let mut state = seed;
    let mut out = Vec::with_capacity(len);
    for _ in 0..len {
        state = state.wrapping_mul(1664525).wrapping_add(1013904223);
        out.push(((state >> 8) % modulus) as u16);
    }
    out
}

fn reference(bins: &[u16], bin_count: usize) -> Vec<u32> {
    let mut counts = vec![0u32; bin_count];
    for &b in bins {
        if (b as usize) < bin_count {
            counts[b as usize] += 1;
        }
    }
    counts
}

#[test]
fn both_drivers_agree_on_counts_and_metrics() {
    for &(bin_count, modulus) in
        &[(1u32, 3u32), (7, 9), (256, 300), (300, 400), (2048, 2100), (5000, 6000), (20000, 30000), (65536, 65536)]
    {
        for &len in &[0usize, 1, 7, 8, 9, 16, 1000, 4099] {
            let bins = stream(len, bin_count + len as u32, modulus);
            let mut mb = Metrics::new();
            let mut ms = Metrics::new();
            let batched = accumulate_slice(&bins, bin_count, Driver::Batched, &mut mb).unwrap();
            let scalar = accumulate_slice(&bins, bin_count, Driver::Scalar, &mut ms).unwrap();
            assert_eq!(batched, scalar);
            assert_eq!(mb, ms);
            assert_eq!(scalar, reference(&bins, bin_count as usize));
        }
    }
}

#[test]
fn counts_add_up_to_the_entries_inside_the_histogram() {
    for &(bin_count, modulus) in &[(5u32, 8u32), (300, 301), (3000, 5000), (20000, 65536)] {
        let bins = stream(5000, 17, modulus);
        let inside = bins.iter().filter(|&&b| (b as u32) < bin_count).count() as u64;
        let mut m = Metrics::new();
        let counts = accumulate_slice(&bins, bin_count, Driver::Batched, &mut m).unwrap();
        assert_eq!(counts.iter().map(|&c| c as u64).sum::<u64>(), inside);
        assert_eq!(m.flushes, m.evictions + m.final_flushes);
        assert!(m.flushes <= m.bins_touched);
        assert!(m.bins_touched <= m.rows_written);
        assert!(m.rows_written <= inside);
        if bin_count <= 16384 {
            assert_eq!(m.rows_written, inside);
        }
    }
}

#[test]
fn entries_outside_the_histogram_change_nothing() {
    let bins = stream(3000, 5, 4000);
    let kept: Vec<u16> = bins.iter().copied().filter(|&b| b < 2500).collect();
    assert!(kept.len() < bins.len());
    let mut with = Metrics::new();
    let mut without = Metrics::new();
    let all = accumulate_slice(&bins, 2500, Driver::Scalar, &mut with).unwrap();
    let only = accumulate_slice(&kept, 2500, Driver::Scalar, &mut without).unwrap();
    assert_eq!(all, only);
    assert_eq!(with, without);
}
