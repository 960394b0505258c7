//! Per-segment running statistics over a sequence of duration samples
//! (non-negative nanosecond counts).
//!
//! The accumulator keeps every raw sample so that the mean absolute
//! deviation can be computed exactly against the final mean; `sum`, `min`
//! and `max` are maintained incrementally so that the count, mean and range
//! are usable after every fold.

use vstd::prelude::*;
use vstd::arithmetic::div_mod::{lemma_div_is_ordered, lemma_div_multiples_vanish};
use vstd::seq_lib::{commutative_foldl, lemma_fold_left_permutation};

verus! {

/// Sum of the samples of `s`, as a mathematical integer.
pub open spec fn seq_sum(s: Seq<u64>) -> int
    decreases s.len(),
{
    if s.len() == 0 {
        0
    } else {
        seq_sum(s.drop_last()) + s.last()
    }
}

/// Absolute difference between a sample and a reference value.
pub open spec fn abs_diff(x: u64, m: int) -> int {
    if x >= m {
        x - m
    } else {
        m - x
    }
}

/// Sum of the absolute deviations of the samples of `s` from `m`.
pub open spec fn dev_sum(s: Seq<u64>, m: int) -> int
    decreases s.len(),
{
    if s.len() == 0 {
        0
    } else {
        dev_sum(s.drop_last(), m) + abs_diff(s.last(), m)
    }
}

/// The arithmetic mean of a non-empty sample sequence, rounded down.
pub open spec fn spec_mean(s: Seq<u64>) -> int {
    seq_sum(s) / (s.len() as int)
}

/// The mean absolute deviation of a non-empty sample sequence: the average
/// distance of the samples from the final mean, rounded down.
pub open spec fn spec_mad(s: Seq<u64>) -> int {
    dev_sum(s, spec_mean(s)) / (s.len() as int)
}

/// Sums are non-negative and bounded by `len * bound` whenever every
/// sample is bounded by `bound`.
pub proof fn lemma_seq_sum_bounds(s: Seq<u64>, bound: int)
    requires
        forall|i: int| 0 <= i < s.len() ==> s[i] <= bound,
    ensures
        0 <= seq_sum(s) <= s.len() * bound,
    decreases s.len(),
{
    if s.len() > 0 {
        lemma_seq_sum_bounds(s.drop_last(), bound);
        assert(s.len() * bound == (s.len() - 1) * bound + bound) by (nonlinear_arith);
    }
}

/// Deviation sums are non-negative and bounded by `len * u64::MAX` whenever
/// the reference value lies in the sample range.
pub proof fn lemma_dev_sum_bounds(s: Seq<u64>, m: int)
    requires
        0 <= m <= u64::MAX,
    ensures
        0 <= dev_sum(s, m) <= s.len() * (u64::MAX as int),
    decreases s.len(),
{
    if s.len() > 0 {
        lemma_dev_sum_bounds(s.drop_last(), m);
        assert(s.len() * (u64::MAX as int) == (s.len() - 1) * (u64::MAX as int) + u64::MAX)
            by (nonlinear_arith);
    }
}

/// `seq_sum` is the left fold of addition.
pub proof fn lemma_seq_sum_is_fold(s: Seq<u64>)
    ensures
        seq_sum(s) == s.fold_left(0int, |acc: int, x: u64| acc + x),
    decreases s.len(),
{
    if s.len() > 0 {
        lemma_seq_sum_is_fold(s.drop_last());
    }
}

/// `dev_sum` is the left fold of adding absolute deviations.
pub proof fn lemma_dev_sum_is_fold(s: Seq<u64>, m: int)
    ensures
        dev_sum(s, m) == s.fold_left(0int, |acc: int, x: u64| acc + abs_diff(x, m)),
    decreases s.len(),
{
    if s.len() > 0 {
        lemma_dev_sum_is_fold(s.drop_last(), m);
    }
}

/// The sum of a sample sequence depends only on which samples it holds,
/// not on their order.
pub proof fn lemma_seq_sum_permutation(a: Seq<u64>, b: Seq<u64>)
    requires
        a.to_multiset() == b.to_multiset(),
    ensures
        seq_sum(a) == seq_sum(b),
{
    let f = |acc: int, x: u64| acc + x;
    assert(commutative_foldl(f));
    lemma_fold_left_permutation(a, b, f, 0int);
    lemma_seq_sum_is_fold(a);
    lemma_seq_sum_is_fold(b);
}

/// The deviation sum likewise depends only on which samples are present.
pub proof fn lemma_dev_sum_permutation(a: Seq<u64>, b: Seq<u64>, m: int)
    requires
        a.to_multiset() == b.to_multiset(),
    ensures
        dev_sum(a, m) == dev_sum(b, m),
{
    let f = |acc: int, x: u64| acc + abs_diff(x, m);
    assert(commutative_foldl(f));
    lemma_fold_left_permutation(a, b, f, 0int);
    lemma_dev_sum_is_fold(a, m);
    lemma_dev_sum_is_fold(b, m);
}

/// Folding the same samples in any order yields the same mean: the mean is
/// a function of the multiset of samples alone.
pub proof fn lemma_mean_order_independent(a: Seq<u64>, b: Seq<u64>)
    requires
        a.to_multiset() == b.to_multiset(),
        a.len() > 0,
    ensures
        spec_mean(a) == spec_mean(b),
{
    a.to_multiset_ensures();
    b.to_multiset_ensures();
    lemma_seq_sum_permutation(a, b);
}

/// Folding the same samples in any order yields the same mean absolute
/// deviation, because the deviation is taken against the final mean.
pub proof fn lemma_mad_order_independent(a: Seq<u64>, b: Seq<u64>)
    requires
        a.to_multiset() == b.to_multiset(),
        a.len() > 0,
    ensures
        spec_mad(a) == spec_mad(b),
{
    a.to_multiset_ensures();
    b.to_multiset_ensures();
    lemma_mean_order_independent(a, b);
    lemma_dev_sum_permutation(a, b, spec_mean(a));
}

/// Running statistics for one segment key.
pub struct SegmentStats {
    /// Every sample folded in so far, in fold order.
    pub samples: Vec<u64>,
    /// Sum of all samples; kept incrementally for the mean.
    pub sum: u128,
    /// Smallest sample seen; meaningful only when a sample exists.
    pub min: u64,
    /// Largest sample seen; meaningful only when a sample exists.
    pub max: u64,
}

impl SegmentStats {
    /// The accumulator's bookkeeping fields agree with the retained
    /// samples: `sum` is their exact sum, and `min`/`max` are the true
    /// minimum and maximum of the folded samples.
    pub open spec fn wf(self) -> bool {
        &&& self.sum == seq_sum(self.samples@)
        &&& self.samples@.len() > 0 ==> {
            &&& self.samples@.contains(self.min)
            &&& self.samples@.contains(self.max)
            &&& forall|i: int|
                0 <= i < self.samples@.len() ==> self.min <= #[trigger] self.samples@[i]
                    <= self.max
        }
    }

    /// A fresh accumulator with no samples.
    pub fn new() -> (r: SegmentStats)
        ensures
            r.wf(),
            r.samples@.len() == 0,
    {
        SegmentStats { samples: Vec::new(), sum: 0, min: 0, max: 0 }
    }

    /// Incorporate one more observation.
    pub fn fold(&mut self, sample: u64)
        requires
            old(self).wf(),
        ensures
            final(self).wf(),
            final(self).samples@ == old(self).samples@.push(sample),
    {
        let n = self.samples.len();
        proof {
            lemma_seq_sum_bounds(self.samples@, u64::MAX as int);
            assert((n as int) * (u64::MAX as int) + (u64::MAX as int) < (u128::MAX as int))
                by (nonlinear_arith)
                requires
                    n <= usize::MAX,
                    usize::MAX <= u64::MAX,
            ;
        }
        if n == 0 {
            self.min = sample;
            self.max = sample;
        } else {
            if sample < self.min {
                self.min = sample;
            }
            if sample > self.max {
                self.max = sample;
            }
        }
        self.sum = self.sum + (sample as u128);
        self.samples.push(sample);
        proof {
            let s1 = self.samples@;
            assert(s1.drop_last() =~= old(self).samples@);
            assert(s1.last() == sample);
            assert(s1.contains(self.min)) by {
                if old(self).samples@.len() == 0 || sample < old(self).min {
                    assert(s1[s1.len() - 1] == self.min);
                } else {
                    let i = choose|i: int|
                        0 <= i < old(self).samples@.len() && old(self).samples@[i] == old(
                            self,
                        ).min;
                    assert(s1[i] == self.min);
                }
            }
            assert(s1.contains(self.max)) by {
                if old(self).samples@.len() == 0 || sample > old(self).max {
                    assert(s1[s1.len() - 1] == self.max);
                } else {
                    let i = choose|i: int|
                        0 <= i < old(self).samples@.len() && old(self).samples@[i] == old(
                            self,
                        ).max;
                    assert(s1[i] == self.max);
                }
            }
        }
    }

    /// Number of samples folded in.
    pub fn count(&self) -> (n: usize)
        ensures
            n == self.samples@.len(),
    {
        self.samples.len()
    }

    /// The arithmetic mean of the samples, rounded down; never divides by
    /// zero because an accumulator is only read once a sample exists.
    pub fn mean(&self) -> (m: u64)
        requires
            self.wf(),
            self.samples@.len() > 0,
        ensures
            m as int == spec_mean(self.samples@),
            self.min <= m <= self.max,
    {
        let n = self.samples.len();
        proof {
            self.lemma_mean_in_range();
        }
        (self.sum / (n as u128)) as u64
    }

    /// The mean of a non-empty, well-formed accumulator lies between the
    /// smallest and largest sample.
    pub proof fn lemma_mean_in_range(self)
        requires
            self.wf(),
            self.samples@.len() > 0,
        ensures
            self.min <= spec_mean(self.samples@) <= self.max,
    {
        let s = self.samples@;
        let n = s.len() as int;
        lemma_seq_sum_bounds(s, self.max as int);
        lemma_div_is_ordered(seq_sum(s), n * (self.max as int), n);
        lemma_div_multiples_vanish(self.max as int, n);
        assert(n * (self.max as int) == (self.max as int) * n) by (nonlinear_arith);
        lemma_seq_sum_lower(s, self.min as int);
        lemma_div_is_ordered(n * (self.min as int), seq_sum(s), n);
        lemma_div_multiples_vanish(self.min as int, n);
        assert(n * (self.min as int) == (self.min as int) * n) by (nonlinear_arith);
    }

    /// The mean absolute deviation of the samples against their final
    /// mean, computed exactly in a second pass over the retained samples.
    pub fn mean_absolute_deviation(&self) -> (d: u64)
        requires
            self.wf(),
            self.samples@.len() > 0,
        ensures
            d as int == spec_mad(self.samples@),
    {
        let m = self.mean();
        let ghost s = self.samples@;
        let n = self.samples.len();
        let mut acc: u128 = 0;
        let mut i: usize = 0;
        while i < n
            invariant
                self.wf(),
                n == s.len(),
                0 < n <= usize::MAX,
                m as int == spec_mean(s),
                s == self.samples@,
                0 <= i <= n,
                acc == dev_sum(s.take(i as int), m as int),
                acc <= (i as int) * (u64::MAX as int),
            decreases n - i,
        {
            let x = self.samples[i];
            let dev: u64 = if x >= m {
                x - m
            } else {
                m - x
            };
            proof {
                assert(s.take(i + 1).drop_last() =~= s.take(i as int));
                assert(s.take(i + 1).last() == s[i as int]);
                assert((i as int) * (u64::MAX as int) + (u64::MAX as int) == ((i + 1) as int) * (
                u64::MAX as int)) by (nonlinear_arith);
                assert(((i + 1) as int) * (u64::MAX as int) < u128::MAX as int)
                    by (nonlinear_arith)
                    requires
                        0 <= i < usize::MAX,
                        usize::MAX <= u64::MAX,
                ;
            }
            acc = acc + (dev as u128);
            i += 1;
        }
        proof {
            assert(s.take(n as int) =~= s);
            lemma_dev_sum_bounds(s, m as int);
            lemma_div_is_ordered(dev_sum(s, m as int), (n as int) * (u64::MAX as int), n as int);
            lemma_div_multiples_vanish(u64::MAX as int, n as int);
            assert((n as int) * (u64::MAX as int) == (u64::MAX as int) * (n as int))
                by (nonlinear_arith);
        }
        (acc / (n as u128)) as u64
    }
}

/// After any sequence of folds, a well-formed accumulator's `min` and
/// `max` are the true minimum and maximum of the folded samples, and its
/// `sum` their exact sum — so its count is the number of folds and its
/// mean their exact quotient.
pub proof fn lemma_accumulator_tracks_samples(s: SegmentStats)
    requires
        s.wf(),
        s.samples@.len() > 0,
    ensures
        s.samples@.contains(s.min),
        s.samples@.contains(s.max),
        forall|i: int| 0 <= i < s.samples@.len() ==> s.min <= #[trigger] s.samples@[i] <= s.max,
        s.sum == seq_sum(s.samples@),
{
}

/// Sums are bounded below by `len * bound` whenever every sample is at
/// least `bound`.
pub proof fn lemma_seq_sum_lower(s: Seq<u64>, bound: int)
    requires
        forall|i: int| 0 <= i < s.len() ==> bound <= s[i],
    ensures
        s.len() * bound <= seq_sum(s),
    decreases s.len(),
{
    if s.len() > 0 {
        lemma_seq_sum_lower(s.drop_last(), bound);
        assert(s.len() * bound == (s.len() - 1) * bound + bound) by (nonlinear_arith);
    }
}

} // verus!
