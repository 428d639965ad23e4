//! Sums and counts over sequences of counters, and the facts about them that
//! the cache and the drivers rely on.

use vstd::prelude::*;

verus! {

/// The sequence of `n` zero counters.
pub open spec fn zeros(n: nat) -> Seq<nat> {
    Seq::new(n, |i: int| 0nat)
}

/// Sum of all counters of `s`.
pub open spec fn total(s: Seq<nat>) -> nat
    decreases s.len(),
{
    if s.len() == 0 {
        0
    } else {
        total(s.drop_last()) + s.last()
    }
}

/// Number of counters of `s` that are not zero.
pub open spec fn nonzero_count(s: Seq<nat>) -> nat
    decreases s.len(),
{
    if s.len() == 0 {
        0
    } else {
        nonzero_count(s.drop_last()) + if s.last() > 0 {
            1nat
        } else {
            0nat
        }
    }
}

/// The counters of a `u32` buffer as natural numbers.
pub open spec fn as_nats(s: Seq<u32>) -> Seq<nat> {
    Seq::new(s.len(), |i: int| s[i] as nat)
}

/// The entries that name bin `b`.
pub open spec fn names_bin(b: int) -> spec_fn(u16) -> bool {
    |v: u16| v as int == b
}

/// The entries that name a bin below `bin_count`.
pub open spec fn names_below(bin_count: int) -> spec_fn(u16) -> bool {
    |v: u16| (v as int) < bin_count
}

/// Number of entries of `bins` that name bin `b`.
pub open spec fn occurrences(bins: Seq<u16>, b: int) -> nat {
    bins.filter(names_bin(b)).len()
}

/// Number of entries of `bins` that name a bin below `bin_count`.
pub open spec fn in_range_count(bins: Seq<u16>, bin_count: int) -> nat {
    bins.filter(names_below(bin_count)).len()
}

/// The per-bin occurrence counts of `bins` for a histogram of `bin_count` bins.
pub open spec fn histogram(bins: Seq<u16>, bin_count: nat) -> Seq<nat> {
    Seq::new(bin_count, |b: int| occurrences(bins, b))
}

/// `base` with each counter of `extra` added at its position shifted by `at`.
pub open spec fn scatter(base: Seq<nat>, at: int, extra: Seq<nat>) -> Seq<nat> {
    Seq::new(
        base.len(),
        |b: int|
            if at <= b < at + extra.len() {
                base[b] + extra[b - at]
            } else {
                base[b]
            },
    )
}

/// Zero counters add up to zero, and none of them is set.
pub proof fn lemma_total_zeros(n: nat)
    ensures
        total(zeros(n)) == 0,
        nonzero_count(zeros(n)) == 0,
    decreases n,
{
    if n > 0 {
        assert(zeros(n).drop_last() =~= zeros((n - 1) as nat));
        lemma_total_zeros((n - 1) as nat);
    }
}

/// No counter is larger than the sum of all.
pub proof fn lemma_total_index(s: Seq<nat>, i: int)
    requires
        0 <= i < s.len(),
    ensures
        s[i] <= total(s),
    decreases s.len(),
{
    if i < s.len() - 1 {
        lemma_total_index(s.drop_last(), i);
    }
}

/// Replacing one counter changes the sum by the difference.
pub proof fn lemma_total_update(s: Seq<nat>, i: int, v: nat)
    requires
        0 <= i < s.len(),
    ensures
        total(s.update(i, v)) == total(s) - s[i] + v,
    decreases s.len(),
{
    if i == s.len() - 1 {
        assert(s.update(i, v).drop_last() =~= s.drop_last());
    } else {
        assert(s.update(i, v).drop_last() =~= s.drop_last().update(i, v));
        lemma_total_update(s.drop_last(), i, v);
    }
}

/// There are no more counters set than rows counted, nor than counters at
/// all; some counter is set exactly when the sum is not zero.
pub proof fn lemma_nonzero_le_total(s: Seq<nat>)
    ensures
        nonzero_count(s) <= total(s),
        nonzero_count(s) <= s.len(),
        total(s) > 0 <==> nonzero_count(s) > 0,
    decreases s.len(),
{
    if s.len() > 0 {
        lemma_nonzero_le_total(s.drop_last());
    }
}

/// One more counter adds its value to the sum of a prefix, and one to the
/// number of counters set where it is not zero.
pub proof fn lemma_total_take_next(s: Seq<nat>, i: int)
    requires
        0 <= i < s.len(),
    ensures
        total(s.take(i + 1)) == total(s.take(i)) + s[i],
        nonzero_count(s.take(i + 1)) == nonzero_count(s.take(i)) + if s[i] > 0 {
            1nat
        } else {
            0nat
        },
{
    assert(s.take(i + 1).drop_last() =~= s.take(i));
}

/// A prefix adds up to no more than the whole.
pub proof fn lemma_total_take_le(s: Seq<nat>, i: int)
    requires
        0 <= i <= s.len(),
    ensures
        total(s.take(i)) <= total(s),
    decreases s.len() - i,
{
    if i < s.len() {
        lemma_total_take_next(s, i);
        lemma_total_take_le(s, i + 1);
    } else {
        assert(s.take(i) =~= s);
    }
}

/// Adding the counters of `extra` onto `base`, each at its own position
/// shifted by `at`, raises the total by the total of `extra`, as long as every
/// counter of `extra` that is not zero lands inside `base`.
pub proof fn lemma_total_scatter(base: Seq<nat>, at: int, extra: Seq<nat>)
    requires
        0 <= at,
        forall|o: int| 0 <= o < extra.len() && extra[o] > 0 ==> at + o < base.len(),
    ensures
        total(scatter(base, at, extra)) == total(base) + total(extra),
    decreases extra.len(),
{
    if extra.len() == 0 {
        assert(scatter(base, at, extra) =~= base);
    } else {
        let shorter = extra.drop_last();
        let last = extra.len() - 1;
        lemma_total_scatter(base, at, shorter);
        let before = scatter(base, at, shorter);
        if extra[last] > 0 {
            assert(scatter(base, at, extra) =~= before.update(
                at + last,
                before[at + last] + extra[last],
            ));
            lemma_total_update(before, at + last, before[at + last] + extra[last]);
        } else {
            assert(scatter(base, at, extra) =~= before);
        }
    }
}

/// One more entry raises the occurrences of the bin it names by one.
pub proof fn lemma_occurrences_push(bins: Seq<u16>, v: u16, b: int)
    ensures
        occurrences(bins.push(v), b) == occurrences(bins, b) + (if v as int == b {
            1nat
        } else {
            0nat
        }),
{
    bins.lemma_filter_len_push(names_bin(b), v);
}

/// One more entry raises the number of entries below `bin_count` by one
/// where it is below `bin_count` itself.
pub proof fn lemma_in_range_push(bins: Seq<u16>, v: u16, bin_count: int)
    ensures
        in_range_count(bins.push(v), bin_count) == in_range_count(bins, bin_count) + (if (v as int)
            < bin_count {
            1nat
        } else {
            0nat
        }),
{
    bins.lemma_filter_len_push(names_below(bin_count), v);
}

} // verus!
