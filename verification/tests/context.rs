use histogram_kernels::{
    accumulate_bins, accumulate_scratch, reset_metrics, scratch_buffer, take_metrics, Driver,
    KernelContext, KernelError, Metrics,
};

fn metrics(flushes: u64, evictions: u64, final_flushes: u64, bins: u64, rows: u64) -> Metrics {
    Metrics { flushes, evictions, final_flushes, bins_touched: bins, rows_written: rows }
}

#[test]
fn small_histogram_counts_and_metrics() {
    let mut ctx = KernelContext::new(Driver::Scalar);
    let counts = accumulate_bins(&mut ctx, &[0, 1, 1, 3, 0], 4).unwrap();
    assert_eq!(counts, vec![2, 2, 0, 1]);
    assert_eq!(take_metrics(&mut ctx), metrics(1, 0, 1, 3, 5));
}

#[test]
fn small_histogram_batched_driver() {
    let mut ctx = KernelContext::new(Driver::Batched);
    let counts = accumulate_bins(&mut ctx, &[0, 1, 1, 3, 0], 4).unwrap();
    assert_eq!(counts, vec![2, 2, 0, 1]);
    assert_eq!(take_metrics(&mut ctx), metrics(1, 0, 1, 3, 5));
}

#[test]
fn single_bin_single_shard() {
    let mut ctx = KernelContext::new(Driver::Scalar);
    let counts = accumulate_bins(&mut ctx, &[0, 0, 0], 1).unwrap();
    assert_eq!(counts, vec![3]);
    assert_eq!(take_metrics(&mut ctx), metrics(1, 0, 1, 1, 3));
}

#[test]
fn out_of_range_entry_is_dropped() {
    let mut ctx = KernelContext::new(Driver::Scalar);
    let counts = accumulate_bins(&mut ctx, &[7, 2, 1], 5).unwrap();
    assert_eq!(counts, vec![0, 1, 1, 0, 0]);
    let snapshot = take_metrics(&mut ctx);
    assert_eq!(snapshot.rows_written, 2);
    assert_eq!(snapshot, metrics(1, 0, 1, 2, 2));
}

#[test]
fn only_out_of_range_entries_leave_metrics_at_zero() {
    let mut ctx = KernelContext::new(Driver::Scalar);
    let counts = accumulate_bins(&mut ctx, &[5, 6, 65535], 5).unwrap();
    assert_eq!(counts, vec![0, 0, 0, 0, 0]);
    assert_eq!(take_metrics(&mut ctx), metrics(0, 0, 0, 0, 0));
}

#[test]
fn scratch_longer_than_reserved_is_refused() {
    let mut ctx = KernelContext::new(Driver::Scalar);
    scratch_buffer(&mut ctx, 4);
    assert_eq!(accumulate_scratch(&mut ctx, 5, 3), Err(KernelError::ScratchExceeded));
    assert_eq!(accumulate_scratch(&mut ctx, 4, 3), Ok(vec![4, 0, 0]));
}

#[test]
fn scratch_never_reserved_is_refused() {
    let mut ctx = KernelContext::new(Driver::Scalar);
    assert_eq!(accumulate_scratch(&mut ctx, 1, 3), Err(KernelError::ScratchExceeded));
    assert_eq!(accumulate_scratch(&mut ctx, 0, 3), Ok(vec![0, 0, 0]));
}

#[test]
fn scratch_error_comes_before_bin_count_error() {
    let mut ctx = KernelContext::new(Driver::Scalar);
    scratch_buffer(&mut ctx, 2);
    assert_eq!(accumulate_scratch(&mut ctx, 3, 0), Err(KernelError::ScratchExceeded));
    assert_eq!(accumulate_scratch(&mut ctx, 2, 0), Err(KernelError::InvalidBinCount));
}

#[test]
fn zero_bin_count_is_refused() {
    let mut ctx = KernelContext::new(Driver::Scalar);
    assert_eq!(accumulate_bins(&mut ctx, &[0, 1], 0), Err(KernelError::InvalidBinCount));
    let mut batched = KernelContext::new(Driver::Batched);
    assert_eq!(accumulate_bins(&mut batched, &[], 0), Err(KernelError::InvalidBinCount));
}

#[test]
fn refused_call_keeps_metrics() {
    let mut ctx = KernelContext::new(Driver::Scalar);
    accumulate_bins(&mut ctx, &[0, 1, 1], 2).unwrap();
    assert_eq!(accumulate_bins(&mut ctx, &[0, 1], 0), Err(KernelError::InvalidBinCount));
    assert_eq!(accumulate_scratch(&mut ctx, 9, 2), Err(KernelError::ScratchExceeded));
    assert_eq!(take_metrics(&mut ctx), metrics(1, 0, 1, 2, 3));
}

#[test]
fn error_messages() {
    assert_eq!(KernelError::InvalidBinCount.message(), "bin_count must be greater than zero");
    assert_eq!(KernelError::ScratchExceeded.message(), "scratch length exceeded");
}

#[test]
fn take_metrics_twice_gives_zero_the_second_time() {
    let mut ctx = KernelContext::new(Driver::Scalar);
    accumulate_bins(&mut ctx, &[0, 1, 1, 3, 0], 4).unwrap();
    let first = take_metrics(&mut ctx);
    assert_ne!(first, metrics(0, 0, 0, 0, 0));
    assert_eq!(first, metrics(1, 0, 1, 3, 5));
    assert_eq!(take_metrics(&mut ctx), metrics(0, 0, 0, 0, 0));
}

#[test]
fn reset_metrics_clears_counters() {
    let mut ctx = KernelContext::new(Driver::Scalar);
    accumulate_bins(&mut ctx, &[2, 2], 3).unwrap();
    reset_metrics(&mut ctx);
    assert_eq!(take_metrics(&mut ctx), metrics(0, 0, 0, 0, 0));
}

#[test]
fn metrics_are_reset_at_the_start_of_each_accumulation() {
    let mut ctx = KernelContext::new(Driver::Scalar);
    accumulate_bins(&mut ctx, &[0, 1, 1, 3, 0], 4).unwrap();
    accumulate_bins(&mut ctx, &[2], 4).unwrap();
    assert_eq!(take_metrics(&mut ctx), metrics(1, 0, 1, 1, 1));
}

#[test]
fn new_context_is_empty() {
    let mut ctx = KernelContext::new(Driver::Batched);
    assert_eq!(ctx.scratch_capacity(), 0);
    assert_eq!(take_metrics(&mut ctx), metrics(0, 0, 0, 0, 0));
}

#[test]
fn scratch_grows_and_never_shrinks() {
    let mut ctx = KernelContext::new(Driver::Scalar);
    assert_eq!(scratch_buffer(&mut ctx, 10).len(), 10);
    assert_eq!(ctx.scratch_capacity(), 10);
    assert_eq!(scratch_buffer(&mut ctx, 4).len(), 4);
    assert_eq!(ctx.scratch_capacity(), 10);
    assert_eq!(scratch_buffer(&mut ctx, 10).len(), 10);
    assert_eq!(ctx.scratch_capacity(), 10);
    assert_eq!(scratch_buffer(&mut ctx, 25).len(), 25);
    assert_eq!(ctx.scratch_capacity(), 25);
    assert_eq!(scratch_buffer(&mut ctx, 0).len(), 0);
    assert_eq!(ctx.scratch_capacity(), 25);
}

#[test]
fn scratch_starts_zeroed_and_keeps_what_was_written() {
    let mut ctx = KernelContext::new(Driver::Scalar);
    {
        let view = scratch_buffer(&mut ctx, 3);
        assert_eq!(view, &[0, 0, 0]);
        view.copy_from_slice(&[2, 1, 2]);
    }
    {
        let view = scratch_buffer(&mut ctx, 5);
        assert_eq!(view, &[2, 1, 2, 0, 0]);
        view[4] = 1;
    }
    assert_eq!(scratch_buffer(&mut ctx, 2), &[2, 1]);
    assert_eq!(accumulate_scratch(&mut ctx, 5, 3), Ok(vec![1, 2, 2]));
    assert_eq!(accumulate_scratch(&mut ctx, 2, 3), Ok(vec![0, 1, 1]));
    assert_eq!(take_metrics(&mut ctx), metrics(1, 0, 1, 2, 2));
}

#[test]
fn accumulation_leaves_scratch_alone() {
    let mut ctx = KernelContext::new(Driver::Batched);
    scratch_buffer(&mut ctx, 3).copy_from_slice(&[1, 1, 0]);
    accumulate_bins(&mut ctx, &[0, 0, 0, 0], 2).unwrap();
    assert_eq!(ctx.scratch_capacity(), 3);
    assert_eq!(scratch_buffer(&mut ctx, 3), &[1, 1, 0]);
}
