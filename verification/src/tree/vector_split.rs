//! Finding the best split of a node with several outputs.
//!
//! The gain of a split is the sum of what it gains for each output, so that one
//! tree serves all outputs.

use crate::number::{lowest_number, Number};
use crate::tree::histogram::NUM_BINS;
use crate::tree::vector_histogram::{zero_list, Bin, VectorHistogram, VectorNodeHistograms};
use vstd::prelude::*;

verus! {

/// A split of a node with several outputs, as a value. The sums are
/// `[g0, h0, g1, h1, ..]`.
#[verifier::ext_equal]
pub struct Division<V> {
    /// The feature.
    pub feature_idx: usize,
    /// Rows whose bin is at most this go left.
    pub bin_threshold: u8,
    /// The gain.
    pub gain: V,
    /// The sums on the left.
    pub left: Seq<V>,
    /// The sums on the right.
    pub right: Seq<V>,
    /// The number of rows on the left.
    pub left_count: u32,
    /// The number of rows on the right.
    pub right_count: u32,
}

impl<V: Number> Division<V> {
    /// This is a split: it has a gain, and rows on both sides.
    pub open spec fn valid(self) -> bool {
        &&& crate::number::above(self.gain, crate::number::lowest())
        &&& self.left_count > 0
        &&& self.right_count > 0
    }
}

/// The split that stands for none.
pub open spec fn no_division<V: Number>(feature_idx: usize, num_outputs: nat) -> Division<V> {
    Division {
        feature_idx,
        bin_threshold: 0,
        gain: crate::number::lowest(),
        left: crate::tree::vector_histogram::zeros(2 * num_outputs),
        right: crate::tree::vector_histogram::zeros(2 * num_outputs),
        left_count: 0,
        right_count: 0,
    }
}

/// A split of a node with several outputs.
#[derive(Debug, Clone)]
pub struct VectorSplitInfo<V, T> {
    /// The number of outputs.
    pub num_outputs: usize,
    /// The feature.
    pub feature_idx: usize,
    /// Rows whose bin is at most this go left.
    pub bin_threshold: u8,
    /// The value at which the split divides.
    pub split_value: T,
    /// The gain, summed over the outputs.
    pub gain: V,
    /// The sums on the left, `[g0, h0, g1, h1, ..]`.
    pub left_stats: Vec<V>,
    /// The sums on the right, `[g0, h0, g1, h1, ..]`.
    pub right_stats: Vec<V>,
    /// The number of rows on the left.
    pub left_count: u32,
    /// The number of rows on the right.
    pub right_count: u32,
}

impl<V, T> VectorSplitInfo<V, T> {
    /// The number of outputs.
    pub open spec fn outputs(&self) -> nat {
        self.num_outputs as nat
    }

    /// The split as a value.
    pub open spec fn division(&self) -> Division<V> {
        Division {
            feature_idx: self.feature_idx,
            bin_threshold: self.bin_threshold,
            gain: self.gain,
            left: self.left_stats@,
            right: self.right_stats@,
            left_count: self.left_count,
            right_count: self.right_count,
        }
    }

    /// There is a pair of sums per output on both sides.
    pub open spec fn wf(&self) -> bool {
        &&& self.division().left.len() == 2 * self.outputs()
        &&& self.division().right.len() == 2 * self.outputs()
        &&& 2 * self.outputs() <= usize::MAX
    }
}

/// Every other entry of a list of sums, from `start` on.
pub open spec fn every_other<V>(sums: Seq<V>, start: int) -> Seq<V> {
    Seq::new(sums.len() / 2, |k: int| sums[2 * k + start])
}

/// Takes every other entry of a list of sums.
fn take_every_other<V: Copy>(sums: &[V], start: usize) -> (r: Vec<V>)
    requires
        sums.len() % 2 == 0,
        start < 2,
    ensures
        r@ == every_other(sums@, start as int),
{
    let mut list: Vec<V> = Vec::new();
    let n: usize = sums.len() / 2;
    let mut k: usize = 0;
    while k < n
        invariant
            k <= n,
            n == sums.len() / 2,
            sums.len() % 2 == 0,
            start < 2,
            list.len() == k,
            forall|j: int| 0 <= j < k ==> #[trigger] list[j] == sums[2 * j + start],
        decreases n - k,
    {
        list.push(sums[2 * k + start]);
        k = k + 1;
    }
    assert(list@ =~= every_other(sums@, start as int));
    list
}

impl<V: Number, T: Copy + From<u8>> VectorSplitInfo<V, T> {
    /// The split that stands for none.
    pub fn new(num_outputs: usize) -> (r: Self)
        requires
            crate::number::arithmetic::<V>(),
            2 * num_outputs <= usize::MAX,
        ensures
            r.outputs() == num_outputs,
            r.division() == no_division::<V>(0, num_outputs as nat),
            crate::number::number_of(0u8, r.split_value),
            r.wf(),
    {
        VectorSplitInfo {
            num_outputs,
            feature_idx: 0,
            bin_threshold: 0,
            split_value: T::from(0u8),
            gain: lowest_number(),
            left_stats: zero_list(2 * num_outputs),
            right_stats: zero_list(2 * num_outputs),
            left_count: 0,
            right_count: 0,
        }
    }
}

impl<V: Number, T> VectorSplitInfo<V, T> {
    /// The number of outputs.
    pub fn num_outputs(&self) -> (r: usize)
        ensures
            r == self.outputs(),
    {
        self.num_outputs
    }

    /// Whether this is a split.
    pub fn is_valid(&self) -> (r: bool)
        requires
            crate::number::arithmetic::<V>(),
        ensures
            r == self.division().valid(),
    {
        let floor: V = lowest_number();
        self.gain > floor && self.left_count > 0 && self.right_count > 0
    }

    /// The gradient and the hessian of an output on the left.
    pub fn left_stats(&self, output_idx: usize) -> (r: (V, V))
        requires
            self.wf(),
            output_idx < self.outputs(),
        ensures
            r.0 == self.division().left[2 * output_idx],
            r.1 == self.division().left[2 * output_idx + 1],
    {
        let offset: usize = output_idx * 2;
        (self.left_stats[offset], self.left_stats[offset + 1])
    }

    /// The gradient and the hessian of an output on the right.
    pub fn right_stats(&self, output_idx: usize) -> (r: (V, V))
        requires
            self.wf(),
            output_idx < self.outputs(),
        ensures
            r.0 == self.division().right[2 * output_idx],
            r.1 == self.division().right[2 * output_idx + 1],
    {
        let offset: usize = output_idx * 2;
        (self.right_stats[offset], self.right_stats[offset + 1])
    }

    /// Sets the gradient and the hessian of an output on the left.
    pub fn set_left_stats(&mut self, output_idx: usize, gradient: V, hessian: V)
        requires
            old(self).wf(),
            output_idx < old(self).outputs(),
        ensures
            final(self).wf(),
            final(self).outputs() == old(self).outputs(),
            final(self).split_value == old(self).split_value,
            final(self).division() == (Division {
                left: old(self).division().left.update(2 * output_idx, gradient).update(
                    2 * output_idx + 1,
                    hessian,
                ),
                ..old(self).division()
            }),
    {
        let offset: usize = output_idx * 2;
        self.left_stats.set(offset, gradient);
        self.left_stats.set(offset + 1, hessian);
    }

    /// Sets the gradient and the hessian of an output on the right.
    pub fn set_right_stats(&mut self, output_idx: usize, gradient: V, hessian: V)
        requires
            old(self).wf(),
            output_idx < old(self).outputs(),
        ensures
            final(self).wf(),
            final(self).outputs() == old(self).outputs(),
            final(self).split_value == old(self).split_value,
            final(self).division() == (Division {
                right: old(self).division().right.update(2 * output_idx, gradient).update(
                    2 * output_idx + 1,
                    hessian,
                ),
                ..old(self).division()
            }),
    {
        let offset: usize = output_idx * 2;
        self.right_stats.set(offset, gradient);
        self.right_stats.set(offset + 1, hessian);
    }

    /// The gradients on the left.
    pub fn left_gradients(&self) -> (r: Vec<V>)
        requires
            self.wf(),
        ensures
            r@ == every_other(self.division().left, 0),
    {
        take_every_other(self.left_stats.as_slice(), 0)
    }

    /// The hessians on the left.
    pub fn left_hessians(&self) -> (r: Vec<V>)
        requires
            self.wf(),
        ensures
            r@ == every_other(self.division().left, 1),
    {
        take_every_other(self.left_stats.as_slice(), 1)
    }

    /// The gradients on the right.
    pub fn right_gradients(&self) -> (r: Vec<V>)
        requires
            self.wf(),
        ensures
            r@ == every_other(self.division().right, 0),
    {
        take_every_other(self.right_stats.as_slice(), 0)
    }

    /// The hessians on the right.
    pub fn right_hessians(&self) -> (r: Vec<V>)
        requires
            self.wf(),
        ensures
            r@ == every_other(self.division().right, 1),
    {
        take_every_other(self.right_stats.as_slice(), 1)
    }

    /// The sums on the left, `[g0, h0, g1, h1, ..]`.
    pub fn left_stats_buffer(&self) -> (r: &[V])
        ensures
            r@ == self.division().left,
    {
        self.left_stats.as_slice()
    }

    /// The sums on the right, `[g0, h0, g1, h1, ..]`.
    pub fn right_stats_buffer(&self) -> (r: &[V])
        ensures
            r@ == self.division().right,
    {
        self.right_stats.as_slice()
    }
}

impl<V: Number, T: Copy + From<u8>> VectorSplitInfo<V, T> {
    /// The split that stands for none, with one output.
    pub fn single() -> (r: Self)
        requires
            crate::number::arithmetic::<V>(),
        ensures
            r.outputs() == 1,
            r.division() == no_division::<V>(0, 1),
            crate::number::number_of(0u8, r.split_value),
            r.wf(),
    {
        VectorSplitInfo::new(1)
    }
}

/// Finds the best split of a node with several outputs.
#[derive(Debug, Clone)]
pub struct VectorSplitFinder<V> {
    /// The number of outputs.
    pub num_outputs: usize,
    /// The L2 regularization.
    pub lambda: V,
    /// The least number of rows of a leaf.
    pub min_samples_leaf: usize,
    /// The least sum of hessians of a leaf, for every output.
    pub min_hessian_leaf: V,
    /// The least gain of a split.
    pub min_gain: V,
}

/// The score of one side for one output: zero where the regularized hessians
/// are not positive.
pub open spec fn guarded_score<V: Number>(gradient: V, hessian: V, lambda: V) -> V {
    if crate::number::above(crate::number::plus(hessian, lambda), crate::number::small(0)) {
        crate::tree::split::score(gradient, hessian, lambda)
    } else {
        crate::number::small(0)
    }
}

/// What a split gains for output `k`.
pub open spec fn output_gain<V: Number>(
    left: Seq<V>,
    right: Seq<V>,
    totals: Seq<V>,
    lambda: V,
    k: int,
) -> V {
    crate::number::over(
        crate::number::minus(
            crate::number::plus(
                guarded_score(left[2 * k], left[2 * k + 1], lambda),
                guarded_score(right[2 * k], right[2 * k + 1], lambda),
            ),
            guarded_score(totals[2 * k], totals[2 * k + 1], lambda),
        ),
        crate::number::small(2),
    )
}

/// What a split gains for the first `n` outputs.
pub open spec fn gain_up_to<V: Number>(
    left: Seq<V>,
    right: Seq<V>,
    totals: Seq<V>,
    lambda: V,
    n: int,
) -> V
    decreases n,
{
    if n <= 0 {
        crate::number::small(0)
    } else {
        crate::number::plus(
            gain_up_to(left, right, totals, lambda, n - 1),
            output_gain(left, right, totals, lambda, n - 1),
        )
    }
}

impl<V: Number> VectorSplitFinder<V> {
    /// Both sides have enough hessians for each of the first `n` outputs.
    pub open spec fn hessians_suffice(&self, left: Seq<V>, right: Seq<V>, n: int) -> bool {
        forall|k: int|
            #![trigger left[2 * k + 1]]
            0 <= k < n ==> !crate::number::below(left[2 * k + 1], self.min_hessian_leaf)
                && !crate::number::below(right[2 * k + 1], self.min_hessian_leaf)
    }

    /// The sums and counts of a split after the first `n` bins.
    pub open spec fn division_after(
        &self,
        bins: Seq<Bin<V>>,
        feature_idx: usize,
        n: int,
    ) -> Division<V> {
        let k = self.num_outputs as nat;
        let plain = crate::tree::vector_histogram::counts_only(bins);
        let totals = crate::tree::vector_histogram::sums_below(bins, k, NUM_BINS as int);
        let all = crate::tree::histogram::count_below(plain, NUM_BINS as int);
        let left = crate::tree::vector_histogram::sums_below(bins, k, n);
        let right = crate::tree::vector_histogram::subtracted(totals, left);
        let count = crate::tree::histogram::count_below(plain, n);
        Division {
            feature_idx,
            bin_threshold: (n - 1) as u8,
            gain: gain_up_to(left, right, totals, self.lambda, k as int),
            left,
            right,
            left_count: count as u32,
            right_count: (all - count) as u32,
        }
    }

    /// The sides are large enough.
    pub open spec fn admissible(&self, d: Division<V>) -> bool {
        &&& d.left_count >= self.min_samples_leaf
        &&& d.right_count >= self.min_samples_leaf
        &&& self.hessians_suffice(d.left, d.right, self.num_outputs as int)
    }

    /// The best split after one of the first `n` bins: the first that gains
    /// more than all before, and enough.
    pub open spec fn best_after(&self, bins: Seq<Bin<V>>, feature_idx: usize, n: int) -> Division<V>
        decreases n,
    {
        if n <= 0 {
            no_division(feature_idx, self.num_outputs as nat)
        } else {
            let before = self.best_after(bins, feature_idx, n - 1);
            let d = self.division_after(bins, feature_idx, n);
            if self.admissible(d) && crate::number::above(d.gain, before.gain)
                && crate::number::at_least(d.gain, self.min_gain) {
                d
            } else {
                before
            }
        }
    }

    /// The best split on a feature. All rows must be enough for two leaves.
    pub open spec fn best_on(&self, bins: Seq<Bin<V>>, feature_idx: usize) -> Division<V> {
        let plain = crate::tree::vector_histogram::counts_only(bins);
        if crate::tree::histogram::count_below(plain, NUM_BINS as int) < 2
            * self.min_samples_leaf {
            no_division(feature_idx, self.num_outputs as nat)
        } else {
            self.best_after(bins, feature_idx, NUM_BINS - 1)
        }
    }

    /// The best split over the features in `order`: the first that gains more
    /// than all before.
    pub open spec fn best_over(&self, histograms: Seq<Seq<Bin<V>>>, order: Seq<usize>) -> Division<
        V,
    >
        decreases order.len(),
    {
        if order.len() == 0 {
            no_division(0, self.num_outputs as nat)
        } else {
            let before = self.best_over(histograms, order.drop_last());
            let d = self.best_on(histograms[order.last() as int], order.last());
            if d.valid() && crate::number::above(d.gain, before.gain) {
                d
            } else {
                before
            }
        }
    }

    /// The settings and the histogram fit together, and the counts fit their
    /// type.
    pub open spec fn fits(&self, bins: Seq<Bin<V>>) -> bool {
        &&& 2 * self.num_outputs <= usize::MAX
        &&& 2 * self.min_samples_leaf <= u32::MAX
        &&& crate::tree::vector_histogram::is_vector_histogram(bins, self.num_outputs as nat)
        &&& crate::tree::histogram::count_below(
            crate::tree::vector_histogram::counts_only(bins),
            NUM_BINS as int,
        ) <= u32::MAX
    }

    /// A finder with the usual settings.
    pub fn new(num_outputs: usize) -> (r: Self)
        requires
            crate::number::arithmetic::<V>(),
        ensures
            r == (VectorSplitFinder {
                num_outputs,
                lambda: crate::number::small::<V>(1),
                min_samples_leaf: 1,
                min_hessian_leaf: crate::number::small::<V>(0),
                min_gain: crate::number::small::<V>(0),
            }),
    {
        VectorSplitFinder {
            num_outputs,
            lambda: V::from(1u8),
            min_samples_leaf: 1,
            min_hessian_leaf: V::from(0u8),
            min_gain: V::from(0u8),
        }
    }

    /// Sets the L2 regularization.
    pub fn with_lambda(self, lambda: V) -> (r: Self)
        ensures
            r == (VectorSplitFinder { lambda, ..self }),
    {
        VectorSplitFinder { lambda, ..self }
    }

    /// Sets the least number of rows of a leaf.
    pub fn with_min_samples_leaf(self, min_samples: usize) -> (r: Self)
        ensures
            r == (VectorSplitFinder { min_samples_leaf: min_samples, ..self }),
    {
        VectorSplitFinder { min_samples_leaf: min_samples, ..self }
    }

    /// Sets the least sum of hessians of a leaf.
    pub fn with_min_hessian_leaf(self, min_hessian: V) -> (r: Self)
        ensures
            r == (VectorSplitFinder { min_hessian_leaf: min_hessian, ..self }),
    {
        VectorSplitFinder { min_hessian_leaf: min_hessian, ..self }
    }

    /// Sets the least gain of a split.
    pub fn with_min_gain(self, min_gain: V) -> (r: Self)
        ensures
            r == (VectorSplitFinder { min_gain, ..self }),
    {
        VectorSplitFinder { min_gain, ..self }
    }

    /// The number of outputs.
    pub fn num_outputs(&self) -> (r: usize)
        ensures
            r == self.num_outputs,
    {
        self.num_outputs
    }

    /// Computes [`guarded_score`].
    fn side_score(&self, gradient: V, hessian: V) -> (r: V)
        requires
            crate::number::arithmetic::<V>(),
        ensures
            r == guarded_score(gradient, hessian, self.lambda),
    {
        let zero: V = V::from(0u8);
        let regularized = hessian + self.lambda;
        if regularized > zero {
            (gradient * gradient) / regularized
        } else {
            zero
        }
    }

    /// Whether both sides have enough hessians for every output.
    fn check_hessians(&self, left: &[V], right: &[V]) -> (r: bool)
        requires
            crate::number::arithmetic::<V>(),
            left.len() == 2 * self.num_outputs,
            right.len() == 2 * self.num_outputs,
            2 * self.num_outputs <= usize::MAX,
        ensures
            r == self.hessians_suffice(left@, right@, self.num_outputs as int),
    {
        let mut k: usize = 0;
        while k < self.num_outputs
            invariant
                crate::number::arithmetic::<V>(),
                left.len() == 2 * self.num_outputs,
                right.len() == 2 * self.num_outputs,
                2 * self.num_outputs <= usize::MAX,
                k <= self.num_outputs,
                self.hessians_suffice(left@, right@, k as int),
            decreases self.num_outputs - k,
        {
            let l: V = left[2 * k + 1];
            let r: V = right[2 * k + 1];
            assert(l == left@[2 * k + 1]);
            if l < self.min_hessian_leaf || r < self.min_hessian_leaf {
                return false;
            }
            k = k + 1;
        }
        true
    }

    /// The gain of a split, summed over the outputs.
    fn total_gain(&self, left: &[V], right: &[V], totals: &[V]) -> (r: V)
        requires
            crate::number::arithmetic::<V>(),
            left.len() == 2 * self.num_outputs,
            right.len() == 2 * self.num_outputs,
            totals.len() == 2 * self.num_outputs,
            2 * self.num_outputs <= usize::MAX,
        ensures
            r == gain_up_to(left@, right@, totals@, self.lambda, self.num_outputs as int),
    {
        let mut gain: V = V::from(0u8);
        let two: V = V::from(2u8);
        let mut k: usize = 0;
        while k < self.num_outputs
            invariant
                crate::number::arithmetic::<V>(),
                left.len() == 2 * self.num_outputs,
                right.len() == 2 * self.num_outputs,
                totals.len() == 2 * self.num_outputs,
                2 * self.num_outputs <= usize::MAX,
                two == crate::number::small::<V>(2),
                k <= self.num_outputs,
                gain == gain_up_to(left@, right@, totals@, self.lambda, k as int),
            decreases self.num_outputs - k,
        {
            let l = self.side_score(left[2 * k], left[2 * k + 1]);
            let r = self.side_score(right[2 * k], right[2 * k + 1]);
            let p = self.side_score(totals[2 * k], totals[2 * k + 1]);
            gain = gain + (l + r - p) / two;
            k = k + 1;
        }
        gain
    }

    /// The best split on one feature; a split that is not valid stands for
    /// none.
    pub fn find_best_split<T: Copy + From<u8>>(
        &self,
        histogram: &VectorHistogram<V>,
        feature_idx: usize,
    ) -> (r: VectorSplitInfo<V, T>)
        requires
            crate::number::arithmetic::<V>(),
            histogram.outputs() == self.num_outputs,
            self.fits(histogram@),
        ensures
            r.wf(),
            r.outputs() == self.num_outputs,
            r.division() == self.best_on(histogram@, feature_idx),
            crate::number::number_of(0u8, r.split_value),
    {
        let mut best: VectorSplitInfo<V, T> = VectorSplitInfo::new(self.num_outputs);
        best.feature_idx = feature_idx;
        let totals = histogram.totals_all_outputs();
        let total_count: u32 = histogram.total_count();
        let min_samples: u32 = self.min_samples_leaf as u32;
        if total_count < 2 * min_samples {
            return best;
        }
        let ghost plain = crate::tree::vector_histogram::counts_only(histogram@);
        let mut left: Vec<V> = zero_list(2 * self.num_outputs);
        let mut left_count: u32 = 0;
        let mut bin: usize = 0;
        while bin < NUM_BINS - 1
            invariant
                crate::number::arithmetic::<V>(),
                histogram.outputs() == self.num_outputs,
                self.fits(histogram@),
                min_samples == self.min_samples_leaf,
                plain == crate::tree::vector_histogram::counts_only(histogram@),
                totals@ == crate::tree::vector_histogram::sums_below(
                    histogram@,
                    self.num_outputs as nat,
                    NUM_BINS as int,
                ),
                totals.len() == 2 * self.num_outputs,
                total_count == crate::tree::histogram::count_below(plain, NUM_BINS as int),
                bin <= NUM_BINS - 1,
                left.len() == 2 * self.num_outputs,
                left@ == crate::tree::vector_histogram::sums_below(
                    histogram@,
                    self.num_outputs as nat,
                    bin as int,
                ),
                left_count == crate::tree::histogram::count_below(plain, bin as int),
                best.wf(),
                best.outputs() == self.num_outputs,
                crate::number::number_of(0u8, best.split_value),
                best.feature_idx == feature_idx,
                best.division() == self.best_after(histogram@, feature_idx, bin as int),
            decreases NUM_BINS - bin,
        {
            proof {
                crate::tree::split::lemma_count_below_grows(plain, bin + 1, NUM_BINS as int);
            }
            left_count = left_count + histogram.get_count(bin as u8);
            histogram.add_bin(bin as u8, &mut left);
            let right_count: u32 = total_count - left_count;
            let mut right: Vec<V> = Vec::new();
            let mut i: usize = 0;
            while i < totals.len()
                invariant
                    crate::number::arithmetic::<V>(),
                    i <= totals.len(),
                    totals.len() == left.len(),
                    right@ == crate::tree::vector_histogram::subtracted(totals@, left@).take(
                        i as int,
                    ),
                decreases totals.len() - i,
            {
                right.push(totals[i] - left[i]);
                i = i + 1;
                assert(right@ =~= crate::tree::vector_histogram::subtracted(
                    totals@,
                    left@,
                ).take(i as int));
            }
            assert(right@ =~= crate::tree::vector_histogram::subtracted(totals@, left@));
            let ghost d = self.division_after(histogram@, feature_idx, bin + 1);
            if left_count >= min_samples && right_count >= min_samples && self.check_hessians(
                left.as_slice(),
                right.as_slice(),
            ) {
                let gain = self.total_gain(
                    left.as_slice(),
                    right.as_slice(),
                    totals.as_slice(),
                );
                if gain > best.gain && gain >= self.min_gain {
                    let mut kept: Vec<V> = Vec::new();
                    let mut j: usize = 0;
                    while j < left.len()
                        invariant
                            j <= left.len(),
                            kept@ == left@.take(j as int),
                        decreases left.len() - j,
                    {
                        kept.push(left[j]);
                        j = j + 1;
                        assert(kept@ =~= left@.take(j as int));
                    }
                    assert(kept@ =~= left@);
                    best.gain = gain;
                    best.bin_threshold = bin as u8;
                    best.left_count = left_count;
                    best.right_count = right_count;
                    best.left_stats = kept;
                    best.right_stats = right;
                    assert(best.division() =~= d);
                }
            }
            bin = bin + 1;
        }
        best
    }

    /// The best split over all features.
    pub fn find_best_split_all_features<T: Copy + From<u8>>(
        &self,
        node_histograms: &VectorNodeHistograms<V>,
    ) -> (r: VectorSplitInfo<V, T>)
        requires
            crate::number::arithmetic::<V>(),
            2 * self.num_outputs <= usize::MAX,
            node_histograms.wf(),
            node_histograms.outputs() == self.num_outputs,
            forall|f: int|
                0 <= f < node_histograms@.len() ==> self.fits(#[trigger] node_histograms@[f]),
        ensures
            r.wf(),
            r.outputs() == self.num_outputs,
            r.division() == self.best_over(
                node_histograms@,
                crate::tree::split::looked_at(None, node_histograms@.len()),
            ),
            crate::number::number_of(0u8, r.split_value),
    {
        let ghost order = crate::tree::split::looked_at(None, node_histograms@.len());
        let mut best: VectorSplitInfo<V, T> = VectorSplitInfo::new(self.num_outputs);
        let mut feature_idx: usize = 0;
        while feature_idx < node_histograms.num_features()
            invariant
                crate::number::arithmetic::<V>(),
                node_histograms.wf(),
                node_histograms.outputs() == self.num_outputs,
                forall|f: int|
                    0 <= f < node_histograms@.len() ==> self.fits(#[trigger] node_histograms@[f]),
                feature_idx <= node_histograms@.len(),
                order == crate::tree::split::looked_at(None, node_histograms@.len()),
                best.wf(),
                best.outputs() == self.num_outputs,
                crate::number::number_of(0u8, best.split_value),
                best.division() == self.best_over(
                    node_histograms@,
                    order.take(feature_idx as int),
                ),
            decreases node_histograms@.len() - feature_idx,
        {
            proof {
                assert(order.take(feature_idx + 1).drop_last() =~= order.take(feature_idx as int));
                assert(order.take(feature_idx + 1).last() == feature_idx);
            }
            let split = self.find_best_split::<T>(node_histograms.get(feature_idx), feature_idx);
            if split.is_valid() && split.gain > best.gain {
                best = split;
            }
            feature_idx = feature_idx + 1;
        }
        assert(order.take(feature_idx as int) =~= order);
        best
    }

    /// The best split over the allowed features; entries that are no feature
    /// are passed over.
    pub fn find_best_split_features<T: Copy + From<u8>>(
        &self,
        node_histograms: &VectorNodeHistograms<V>,
        allowed_features: &[usize],
    ) -> (r: VectorSplitInfo<V, T>)
        requires
            crate::number::arithmetic::<V>(),
            2 * self.num_outputs <= usize::MAX,
            node_histograms.wf(),
            node_histograms.outputs() == self.num_outputs,
            forall|f: int|
                0 <= f < node_histograms@.len() ==> self.fits(#[trigger] node_histograms@[f]),
        ensures
            r.wf(),
            r.outputs() == self.num_outputs,
            r.division() == self.best_over(
                node_histograms@,
                crate::tree::split::looked_at(Some(allowed_features@), node_histograms@.len()),
            ),
            crate::number::number_of(0u8, r.split_value),
    {
        let num_features: usize = node_histograms.num_features();
        let ghost keep = |f: usize| f < node_histograms@.len();
        let mut best: VectorSplitInfo<V, T> = VectorSplitInfo::new(self.num_outputs);
        let mut n: usize = 0;
        proof {
            reveal(Seq::filter);
            assert(allowed_features@.take(0).filter(keep) =~= Seq::<usize>::empty());
        }
        while n < allowed_features.len()
            invariant
                crate::number::arithmetic::<V>(),
                num_features == node_histograms@.len(),
                node_histograms.wf(),
                node_histograms.outputs() == self.num_outputs,
                forall|f: int|
                    0 <= f < node_histograms@.len() ==> self.fits(#[trigger] node_histograms@[f]),
                n <= allowed_features.len(),
                keep == (|f: usize| f < node_histograms@.len()),
                best.wf(),
                best.outputs() == self.num_outputs,
                crate::number::number_of(0u8, best.split_value),
                best.division() == self.best_over(
                    node_histograms@,
                    allowed_features@.take(n as int).filter(keep),
                ),
            decreases allowed_features.len() - n,
        {
            let feature_idx: usize = allowed_features[n];
            let ghost before = allowed_features@.take(n as int).filter(keep);
            let ghost now = allowed_features@.take(n + 1).filter(keep);
            proof {
                reveal(Seq::filter);
                assert(allowed_features@.take(n + 1).drop_last() =~= allowed_features@.take(
                    n as int,
                ));
                assert(allowed_features@.take(n + 1).last() == feature_idx);
            }
            if feature_idx < num_features {
                proof {
                    assert(now =~= before.push(feature_idx));
                    assert(now.drop_last() =~= before);
                }
                let split = self.find_best_split::<T>(
                    node_histograms.get(feature_idx),
                    feature_idx,
                );
                if split.is_valid() && split.gain > best.gain {
                    best = split;
                }
            } else {
                assert(now =~= before);
            }
            n = n + 1;
        }
        assert(allowed_features@.take(n as int) =~= allowed_features@);
        best
    }
}

/// The best split on a feature is an admissible one that gains enough, or
/// stands for none.
pub proof fn law_vector_best_is_admissible<V: Number>(
    finder: &VectorSplitFinder<V>,
    bins: Seq<Bin<V>>,
    feature_idx: usize,
    n: int,
)
    ensures
        ({
            let best = finder.best_after(bins, feature_idx, n);
            best == no_division::<V>(feature_idx, finder.num_outputs as nat) || exists|b: int|
                {
                    &&& 1 <= b <= n
                    &&& best == #[trigger] finder.division_after(bins, feature_idx, b)
                    &&& finder.admissible(best)
                    &&& crate::number::at_least(best.gain, finder.min_gain)
                }
        }),
    decreases n,
{
    if n > 0 {
        law_vector_best_is_admissible(finder, bins, feature_idx, n - 1);
        let d = finder.division_after(bins, feature_idx, n);
    }
}

/// No admissible split on a feature that gains enough gains more than the best.
pub proof fn law_vector_best_is_best<V: Number>(
    finder: &VectorSplitFinder<V>,
    bins: Seq<Bin<V>>,
    feature_idx: usize,
    n: int,
    b: int,
)
    requires
        crate::number::ordered::<V>(),
        1 <= b <= n,
        finder.admissible(finder.division_after(bins, feature_idx, b)),
        crate::number::at_least(
            finder.division_after(bins, feature_idx, b).gain,
            finder.min_gain,
        ),
    ensures
        !crate::number::above(
            finder.division_after(bins, feature_idx, b).gain,
            finder.best_after(bins, feature_idx, n).gain,
        ),
    decreases n,
{
    let g = finder.division_after(bins, feature_idx, b).gain;
    if b < n {
        law_vector_best_is_best(finder, bins, feature_idx, n - 1, b);
        let before = finder.best_after(bins, feature_idx, n - 1).gain;
        let now = finder.best_after(bins, feature_idx, n).gain;
        if crate::number::above(g, now) && crate::number::above(now, before) {
            assert(crate::number::above(g, before));
        }
    }
}

/// The best split over several features is the best split on one of them, or
/// stands for none.
pub proof fn lemma_best_over_is_found<V: Number>(
    finder: &VectorSplitFinder<V>,
    histograms: Seq<Seq<Bin<V>>>,
    order: Seq<usize>,
)
    ensures
        ({
            let best = finder.best_over(histograms, order);
            best == no_division::<V>(0, finder.num_outputs as nat) || (order.contains(
                best.feature_idx,
            ) && best == finder.best_on(
                histograms[best.feature_idx as int],
                best.feature_idx,
            ) && best.valid())
        }),
    decreases order.len(),
{
    if order.len() > 0 {
        let fewer = order.drop_last();
        let f = order.last();
        lemma_best_over_is_found(finder, histograms, fewer);
        let before = finder.best_over(histograms, fewer);
        let d = finder.best_on(histograms[f as int], f);
        law_vector_best_is_admissible(finder, histograms[f as int], f, NUM_BINS - 1);
        assert(d.feature_idx == f);
        assert(order[order.len() - 1] == f);
        if fewer.contains(before.feature_idx) {
            let k = choose|k: int| 0 <= k < fewer.len() && fewer[k] == before.feature_idx;
            assert(order[k] == before.feature_idx);
        }
    }
}

/// What a split gains for several outputs is the sum of what finders with one
/// output each find that it gains: one output more adds its own gain.
pub proof fn law_outputs_add_up<V: Number, F: crate::functions::Functions<V>>(
    worth: spec_fn(V) -> real,
    single: &crate::tree::split::SplitFinder<V>,
    left: Seq<V>,
    right: Seq<V>,
    totals: Seq<V>,
    lambda: V,
    n: int,
    functions: F,
    gain: V,
)
    requires
        crate::exact::exact(worth),
        single.lambda == lambda,
        worth(single.entropy_weight) == 0real,
        n >= 0,
        worth(left[2 * n + 1]) + worth(lambda) > 0real,
        worth(right[2 * n + 1]) + worth(lambda) > 0real,
        worth(totals[2 * n + 1]) + worth(lambda) > 0real,
        single.gains(
            crate::tree::split::Sides {
                left_gradient: left[2 * n],
                left_hessian: left[2 * n + 1],
                left_count: 0,
                right_gradient: right[2 * n],
                right_hessian: right[2 * n + 1],
                right_count: 0,
            },
            crate::tree::split::NodeTotals {
                gradient: totals[2 * n],
                hessian: totals[2 * n + 1],
                count: 0,
            },
            functions,
            gain,
        ),
    ensures
        worth(gain_up_to(left, right, totals, lambda, n + 1)) == worth(
            gain_up_to(left, right, totals, lambda, n),
        ) + worth(gain),
        worth(gain_up_to(left, right, totals, lambda, 0)) == 0real,
{
    assert(!crate::number::above(single.entropy_weight, crate::number::small(0)));
}

/// What output `k` of a leaf with the given sums loses at its best value.
pub open spec fn output_loss<V: Number>(
    worth: spec_fn(V) -> real,
    sums: Seq<V>,
    lambda: V,
    k: int,
) -> real {
    crate::tree::split::leaf_loss(
        worth(sums[2 * k]),
        worth(sums[2 * k + 1]),
        worth(lambda),
        worth(crate::tree::split::weight(sums[2 * k], sums[2 * k + 1], lambda)),
    )
}

/// An output gains the loss that the split takes away from it.
pub proof fn law_output_gain_is_loss_taken_away<V: Number>(
    worth: spec_fn(V) -> real,
    left: Seq<V>,
    right: Seq<V>,
    totals: Seq<V>,
    lambda: V,
    k: int,
)
    requires
        crate::exact::exact(worth),
        worth(left[2 * k + 1]) + worth(lambda) > 0real,
        worth(right[2 * k + 1]) + worth(lambda) > 0real,
        worth(totals[2 * k + 1]) + worth(lambda) > 0real,
    ensures
        worth(output_gain(left, right, totals, lambda, k)) == output_loss(worth, totals, lambda, k)
            - output_loss(worth, left, lambda, k) - output_loss(worth, right, lambda, k),
{
    let l = guarded_score(left[2 * k], left[2 * k + 1], lambda);
    let r = guarded_score(right[2 * k], right[2 * k + 1], lambda);
    let p = guarded_score(totals[2 * k], totals[2 * k + 1], lambda);
    assert(l == crate::tree::split::score(left[2 * k], left[2 * k + 1], lambda)) by {
        assert(worth(crate::number::plus(left[2 * k + 1], lambda)) > 0real);
    }
    assert(r == crate::tree::split::score(right[2 * k], right[2 * k + 1], lambda)) by {
        assert(worth(crate::number::plus(right[2 * k + 1], lambda)) > 0real);
    }
    assert(p == crate::tree::split::score(totals[2 * k], totals[2 * k + 1], lambda)) by {
        assert(worth(crate::number::plus(totals[2 * k + 1], lambda)) > 0real);
    }
    assert(worth(output_gain(left, right, totals, lambda, k)) == (worth(l) + worth(r) - worth(p))
        / 2real);
    crate::tree::split::lemma_score_is_loss_spared(worth, left[2 * k], left[2 * k + 1], lambda);
    crate::tree::split::lemma_score_is_loss_spared(worth, right[2 * k], right[2 * k + 1], lambda);
    crate::tree::split::lemma_score_is_loss_spared(
        worth,
        totals[2 * k],
        totals[2 * k + 1],
        lambda,
    );
}

/// A side whose regularized hessians are not positive counts for nothing.
pub proof fn law_side_without_hessians_counts_for_nothing<V: Number>(
    worth: spec_fn(V) -> real,
    gradient: V,
    hessian: V,
    lambda: V,
)
    requires
        crate::exact::exact(worth),
        worth(hessian) + worth(lambda) <= 0real,
    ensures
        worth(guarded_score(gradient, hessian, lambda)) == 0real,
{
}

/// A split that gains at least as much as another for every output gains at least
/// as much in all, and more if it gains more for some output.
pub proof fn law_gain_rises_with_each_output<V: Number>(
    worth: spec_fn(V) -> real,
    a: (Seq<V>, Seq<V>, Seq<V>),
    b: (Seq<V>, Seq<V>, Seq<V>),
    lambda: V,
    n: nat,
)
    requires
        crate::exact::exact(worth),
        forall|k: int|
            0 <= k < n ==> worth(#[trigger] output_gain(a.0, a.1, a.2, lambda, k)) <= worth(
                output_gain(b.0, b.1, b.2, lambda, k),
            ),
    ensures
        worth(gain_up_to(a.0, a.1, a.2, lambda, n as int)) <= worth(
            gain_up_to(b.0, b.1, b.2, lambda, n as int),
        ),
        (exists|k: int|
            0 <= k < n && worth(#[trigger] output_gain(a.0, a.1, a.2, lambda, k)) < worth(
                output_gain(b.0, b.1, b.2, lambda, k),
            )) ==> worth(gain_up_to(a.0, a.1, a.2, lambda, n as int)) < worth(
            gain_up_to(b.0, b.1, b.2, lambda, n as int),
        ),
    decreases n,
{
    if n > 0 {
        law_gain_rises_with_each_output(worth, a, b, lambda, (n - 1) as nat);
        assert(worth(output_gain(a.0, a.1, a.2, lambda, n - 1)) <= worth(
            output_gain(b.0, b.1, b.2, lambda, n - 1),
        ));
    }
}

/// A split after bin `b` may be taken: both sides have enough rows, and enough
/// hessians for every output, and it gains enough.
pub open spec fn vector_may_be_taken<V: Number>(
    worth: spec_fn(V) -> real,
    finder: &VectorSplitFinder<V>,
    d: Division<V>,
) -> bool {
    &&& d.left_count >= finder.min_samples_leaf
    &&& d.right_count >= finder.min_samples_leaf
    &&& forall|k: int|
        #![trigger d.left[2 * k + 1]]
        #![trigger d.right[2 * k + 1]]
        0 <= k < finder.num_outputs ==> worth(d.left[2 * k + 1]) >= worth(finder.min_hessian_leaf)
            && worth(d.right[2 * k + 1]) >= worth(finder.min_hessian_leaf)
    &&& worth(d.gain) >= worth(finder.min_gain)
}

/// The split over several features may be taken, and no split that may be taken,
/// on any of the features, gains more.
pub proof fn law_vector_split_is_best<V: Number>(
    worth: spec_fn(V) -> real,
    finder: &VectorSplitFinder<V>,
    histograms: Seq<Seq<Bin<V>>>,
    order: Seq<usize>,
    i: int,
    b: int,
)
    requires
        crate::exact::exact(worth),
        finder.min_samples_leaf > 0,
        0 <= i < order.len(),
        1 <= b < NUM_BINS,
        finder.fits(histograms[order[i] as int]),
        vector_may_be_taken(
            worth,
            finder,
            finder.division_after(histograms[order[i] as int], order[i], b),
        ),
        worth(finder.division_after(histograms[order[i] as int], order[i], b).gain) > worth(
            crate::number::lowest::<V>(),
        ),
    ensures
        finder.best_over(histograms, order).valid(),
        order.contains(finder.best_over(histograms, order).feature_idx),
        vector_may_be_taken(worth, finder, finder.best_over(histograms, order)),
        worth(finder.division_after(histograms[order[i] as int], order[i], b).gain) <= worth(
            finder.best_over(histograms, order).gain,
        ),
    decreases order.len(),
{
    let best = finder.best_over(histograms, order);
    let f = order[i];
    let bins = histograms[f as int];
    let d = finder.division_after(bins, f, b);
    assert(finder.admissible(d)) by {
        assert forall|k: int|
            #![trigger d.left[2 * k + 1]]
            0 <= k < finder.num_outputs implies !crate::number::below(
            d.left[2 * k + 1],
            finder.min_hessian_leaf,
        ) && !crate::number::below(d.right[2 * k + 1], finder.min_hessian_leaf) by {
            assert(worth(d.left[2 * k + 1]) >= worth(finder.min_hessian_leaf));
        }
    }
    law_vector_best_is_best(finder, bins, f, NUM_BINS - 1, b);
    law_vector_best_is_admissible(finder, bins, f, NUM_BINS - 1);
    let plain = crate::tree::vector_histogram::counts_only(bins);
    let all = crate::tree::histogram::count_below(plain, NUM_BINS as int);
    let count = crate::tree::histogram::count_below(plain, b);
    crate::tree::split::lemma_count_below_grows(plain, b, NUM_BINS as int);
    assert(d.left_count == count && d.right_count == all - count);
    let on = finder.best_on(bins, f);
    assert(on == finder.best_after(bins, f, NUM_BINS - 1));
    assert(!crate::number::above(d.gain, on.gain));
    assert(worth(on.gain) > worth(crate::number::lowest::<V>()));
    assert(on != no_division::<V>(f, finder.num_outputs as nat));
    assert(on.valid());
    lemma_best_over_covers(worth, finder, histograms, order, i);
    lemma_best_over_is_found(finder, histograms, order);
    let g = best.feature_idx;
    law_vector_best_is_admissible(finder, histograms[g as int], g, NUM_BINS - 1);
    assert(finder.admissible(best));
    assert forall|k: int|
        #![trigger best.left[2 * k + 1]]
        #![trigger best.right[2 * k + 1]]
        0 <= k < finder.num_outputs implies worth(best.left[2 * k + 1]) >= worth(
        finder.min_hessian_leaf,
    ) && worth(best.right[2 * k + 1]) >= worth(finder.min_hessian_leaf) by {
        assert(!crate::number::below(best.left[2 * k + 1], finder.min_hessian_leaf));
    }
}

proof fn lemma_best_over_covers<V: Number>(
    worth: spec_fn(V) -> real,
    finder: &VectorSplitFinder<V>,
    histograms: Seq<Seq<Bin<V>>>,
    order: Seq<usize>,
    i: int,
)
    requires
        crate::exact::exact(worth),
        0 <= i < order.len(),
        finder.best_on(histograms[order[i] as int], order[i]).valid(),
    ensures
        worth(finder.best_on(histograms[order[i] as int], order[i]).gain) <= worth(
            finder.best_over(histograms, order).gain,
        ),
    decreases order.len(),
{
    let fewer = order.drop_last();
    if i < fewer.len() {
        assert(fewer[i] == order[i]);
        lemma_best_over_covers(worth, finder, histograms, fewer, i);
    }
}

/// The sums of the best split on a feature are, output by output, those of the rows
/// on either side of its threshold, where the histogram is that of the rows.
pub proof fn law_vector_split_sums_are_of_its_rows<V: Number>(
    worth: spec_fn(V) -> real,
    finder: &VectorSplitFinder<V>,
    bins: Seq<Bin<V>>,
    feature_idx: usize,
    gradients: Seq<V>,
    hessians: Seq<V>,
    column: Seq<u8>,
    rows: Seq<usize>,
    o: int,
)
    requires
        crate::exact::exact(worth),
        finder.best_on(bins, feature_idx).valid(),
        0 <= o < finder.num_outputs,
        crate::tree::vector_histogram::output_sums(
            worth,
            bins,
            gradients,
            hessians,
            finder.num_outputs as nat,
            column,
            rows,
            o,
        ),
    ensures
        ({
            let d = finder.best_on(bins, feature_idx);
            let k = finder.num_outputs as nat;
            let g = crate::tree::vector_histogram::output_of(gradients, k, o);
            let h = crate::tree::vector_histogram::output_of(hessians, k, o);
            let left = rows.filter(|r: usize| column[r as int] <= d.bin_threshold);
            let right = rows.filter(|r: usize| !(column[r as int] <= d.bin_threshold));
            &&& worth(d.left[2 * o]) == worth(crate::tree::histogram::row_sum(g, left))
            &&& worth(d.left[2 * o + 1]) == worth(crate::tree::histogram::row_sum(h, left))
            &&& worth(d.right[2 * o]) == worth(crate::tree::histogram::row_sum(g, right))
            &&& worth(d.right[2 * o + 1]) == worth(crate::tree::histogram::row_sum(h, right))
        }),
{
    let d = finder.best_on(bins, feature_idx);
    let k = finder.num_outputs as nat;
    law_vector_best_is_admissible(finder, bins, feature_idx, NUM_BINS - 1);
    let n = choose|n: int|
        1 <= n <= NUM_BINS - 1 && d == #[trigger] finder.division_after(bins, feature_idx, n);
    let all = NUM_BINS as int;
    crate::tree::vector_histogram::lemma_sums_below_are_of_rows(
        worth,
        bins,
        gradients,
        hessians,
        k,
        column,
        rows,
        o,
        n,
    );
    crate::tree::vector_histogram::lemma_sums_below_are_of_rows(
        worth,
        bins,
        gradients,
        hessians,
        k,
        column,
        rows,
        o,
        all,
    );
    crate::tree::histogram::lemma_all_rows_under(column, rows);
    let g = crate::tree::vector_histogram::output_of(gradients, k, o);
    let h = crate::tree::vector_histogram::output_of(hessians, k, o);
    let p = |r: usize| column[r as int] <= d.bin_threshold;
    let q = |r: usize| !(column[r as int] <= d.bin_threshold);
    let under = |r: usize| column[r as int] < n;
    assert(d.bin_threshold == n - 1);
    assert(p =~= under);
    crate::tree::histogram::lemma_sums_divided(worth, g, column, rows, p, q, 0);
    crate::tree::histogram::lemma_sums_divided(worth, h, column, rows, p, q, 0);
}

} // verus!
