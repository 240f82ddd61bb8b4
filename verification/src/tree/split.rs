//! Finding the best split of a node.
//!
//! A split sends the rows whose bin is at most a threshold to the left. Its
//! gain is the improvement of the loss that it brings; with a positive entropy
//! weight, balanced splits gain more.

use crate::functions::Functions;
use crate::number::{lowest_number, Number};
use crate::tree::histogram::{BinEntry, Histogram, NodeHistograms, NUM_BINS};
use vstd::prelude::*;

verus! {

/// How predictions must change with a feature.
#[derive(Debug, Clone, Copy, PartialEq, Eq, Structural)]
pub enum MonotonicConstraint {
    /// In any way.
    Unconstrained,
    /// They must not fall as the feature rises.
    Increasing,
    /// They must not rise as the feature rises.
    Decreasing,
}

impl MonotonicConstraint {
    /// The constraint that a number stands for: 1 is increasing, -1 is
    /// decreasing and 0 is none.
    pub fn from_code(code: i32) -> (r: Option<MonotonicConstraint>)
        ensures
            r == (if code == 1 {
                Some(MonotonicConstraint::Increasing)
            } else if code == -1 {
                Some(MonotonicConstraint::Decreasing)
            } else if code == 0 {
                Some(MonotonicConstraint::Unconstrained)
            } else {
                None
            }),
    {
        if code == 1 {
            Some(MonotonicConstraint::Increasing)
        } else if code == -1 {
            Some(MonotonicConstraint::Decreasing)
        } else if code == 0 {
            Some(MonotonicConstraint::Unconstrained)
        } else {
            None
        }
    }
}

/// A split of a node.
#[derive(Debug, Clone, Copy)]
pub struct SplitInfo<V> {
    /// The feature.
    pub feature_idx: usize,
    /// Rows whose bin is at most this go left.
    pub bin_threshold: u8,
    /// The gain.
    pub gain: V,
    /// The sum of the gradients on the left.
    pub left_gradient: V,
    /// The sum of the hessians on the left.
    pub left_hessian: V,
    /// The number of rows on the left.
    pub left_count: u32,
    /// The sum of the gradients on the right.
    pub right_gradient: V,
    /// The sum of the hessians on the right.
    pub right_hessian: V,
    /// The number of rows on the right.
    pub right_count: u32,
}

/// The split that stands for none.
pub open spec fn no_split<V: Number>(feature_idx: usize) -> SplitInfo<V> {
    SplitInfo {
        feature_idx,
        bin_threshold: 0,
        gain: crate::number::lowest(),
        left_gradient: crate::number::small(0),
        left_hessian: crate::number::small(0),
        left_count: 0,
        right_gradient: crate::number::small(0),
        right_hessian: crate::number::small(0),
        right_count: 0,
    }
}

impl<V: Number> SplitInfo<V> {
    /// This is a split: it has a gain, and rows on both sides.
    pub open spec fn valid(self) -> bool {
        &&& crate::number::above(self.gain, crate::number::lowest())
        &&& self.left_count > 0
        &&& self.right_count > 0
    }

    /// The split that stands for none.
    pub fn none(feature_idx: usize) -> (r: Self)
        requires
            crate::number::arithmetic::<V>(),
        ensures
            r == no_split::<V>(feature_idx),
    {
        let zero: V = V::from(0u8);
        SplitInfo {
            feature_idx,
            bin_threshold: 0,
            gain: lowest_number(),
            left_gradient: zero,
            left_hessian: zero,
            left_count: 0,
            right_gradient: zero,
            right_hessian: zero,
            right_count: 0,
        }
    }

    /// Whether this is a split.
    pub fn is_valid(&self) -> (r: bool)
        requires
            crate::number::arithmetic::<V>(),
        ensures
            r == self.valid(),
    {
        let floor: V = lowest_number();
        self.gain > floor && self.left_count > 0 && self.right_count > 0
    }
}

/// What a node adds up to.
#[derive(Debug, Clone, Copy)]
pub struct NodeTotals<V> {
    /// The sum of the gradients.
    pub gradient: V,
    /// The sum of the hessians.
    pub hessian: V,
    /// The number of rows.
    pub count: u32,
}

/// The two sides of a split.
#[derive(Debug, Clone, Copy)]
pub struct Sides<V> {
    /// The sum of the gradients on the left.
    pub left_gradient: V,
    /// The sum of the hessians on the left.
    pub left_hessian: V,
    /// The number of rows on the left.
    pub left_count: u32,
    /// The sum of the gradients on the right.
    pub right_gradient: V,
    /// The sum of the hessians on the right.
    pub right_hessian: V,
    /// The number of rows on the right.
    pub right_count: u32,
}

/// Finds the best split of a node.
#[derive(Debug, Clone)]
pub struct SplitFinder<V> {
    /// The L2 regularization.
    pub lambda: V,
    /// The least number of rows of a leaf.
    pub min_samples_leaf: usize,
    /// The least sum of hessians of a leaf.
    pub min_hessian_leaf: V,
    /// The weight of the entropy of a split.
    pub entropy_weight: V,
    /// The least gain of a split.
    pub min_gain: V,
    /// The constraint of each feature; features beyond the list have none.
    pub monotonic_constraints: Vec<MonotonicConstraint>,
}

/// The score of one side: the square of the gradients over the regularized
/// hessians.
pub open spec fn score<V: Number>(gradient: V, hessian: V, lambda: V) -> V {
    crate::number::over(
        crate::number::times(gradient, gradient),
        crate::number::plus(hessian, lambda),
    )
}

/// The value that a leaf would have: minus the gradients over the regularized
/// hessians.
pub open spec fn weight<V: Number>(gradient: V, hessian: V, lambda: V) -> V {
    crate::number::over(crate::number::negated(gradient), crate::number::plus(hessian, lambda))
}

/// Half of what the sides score above the node as a whole.
pub open spec fn plain_gain<V: Number>(sides: Sides<V>, totals: NodeTotals<V>, lambda: V) -> V {
    crate::number::over(
        crate::number::minus(
            crate::number::plus(
                score(sides.left_gradient, sides.left_hessian, lambda),
                score(sides.right_gradient, sides.right_hessian, lambda),
            ),
            score(totals.gradient, totals.hessian, lambda),
        ),
        crate::number::small(2),
    )
}

/// How far the scan over the bins of a feature has come.
pub struct Scan<V> {
    /// The sum of the gradients so far.
    pub gradient: V,
    /// The sum of the hessians so far.
    pub hessian: V,
    /// The number of rows so far.
    pub count: nat,
    /// The best split so far.
    pub best: SplitInfo<V>,
}

/// The sides of a split after what the scan has passed.
pub open spec fn sides_of<V: Number>(
    gradient: V,
    hessian: V,
    count: nat,
    totals: NodeTotals<V>,
) -> Sides<V> {
    Sides {
        left_gradient: gradient,
        left_hessian: hessian,
        left_count: count as u32,
        right_gradient: crate::number::minus(totals.gradient, gradient),
        right_hessian: crate::number::minus(totals.hessian, hessian),
        right_count: (totals.count - count) as u32,
    }
}

/// The split with the given sides.
pub open spec fn split_with<V>(
    feature_idx: usize,
    bin: int,
    gain: V,
    sides: Sides<V>,
) -> SplitInfo<V> {
    SplitInfo {
        feature_idx,
        bin_threshold: bin as u8,
        gain,
        left_gradient: sides.left_gradient,
        left_hessian: sides.left_hessian,
        left_count: sides.left_count,
        right_gradient: sides.right_gradient,
        right_hessian: sides.right_hessian,
        right_count: sides.right_count,
    }
}

/// The entropy of a split with `left` and `right` rows of `total`: one where
/// the halves are equal, zero where one side has all rows.
pub open spec fn entropy_of<V: Number, F: Functions<V>>(
    f: &F,
    left: u32,
    right: u32,
    total: u32,
) -> V {
    let p: V = crate::number::over(
        crate::functions::count_of::<V, F>(f, left as usize),
        crate::functions::count_of::<V, F>(f, total as usize),
    );
    let q: V = crate::number::minus(crate::number::small::<V>(1), p);
    if total == 0 || left == 0 || right == 0 {
        crate::number::small(0)
    } else if crate::number::above(p, crate::number::small(0)) && crate::number::above(
        q,
        crate::number::small(0),
    ) {
        crate::number::negated(
            crate::number::plus(
                crate::number::times(p, crate::functions::log2_of(f, p)),
                crate::number::times(q, crate::functions::log2_of(f, q)),
            ),
        )
    } else {
        crate::number::small(0)
    }
}

impl<V: Number> SplitFinder<V> {
    /// The constraint of a feature.
    pub open spec fn constraint(&self, feature_idx: int) -> MonotonicConstraint {
        if 0 <= feature_idx < self.monotonic_constraints.len() {
            self.monotonic_constraints[feature_idx]
        } else {
            MonotonicConstraint::Unconstrained
        }
    }

    /// The sides respect the constraint of the feature.
    pub open spec fn monotonic(&self, feature_idx: int, sides: Sides<V>) -> bool {
        let left = weight(sides.left_gradient, sides.left_hessian, self.lambda);
        let right = weight(sides.right_gradient, sides.right_hessian, self.lambda);
        match self.constraint(feature_idx) {
            MonotonicConstraint::Unconstrained => true,
            MonotonicConstraint::Increasing => crate::number::at_most(left, right),
            MonotonicConstraint::Decreasing => crate::number::at_least(left, right),
        }
    }

    /// The sides are large enough and respect the constraint of the feature.
    pub open spec fn admissible(&self, feature_idx: int, sides: Sides<V>) -> bool {
        &&& sides.left_count >= self.min_samples_leaf
        &&& sides.right_count >= self.min_samples_leaf
        &&& !crate::number::below(sides.left_hessian, self.min_hessian_leaf)
        &&& !crate::number::below(sides.right_hessian, self.min_hessian_leaf)
        &&& self.monotonic(feature_idx, sides)
    }

    /// `gain` is what the sides gain.
    pub open spec fn gains<F: Functions<V>>(
        &self,
        sides: Sides<V>,
        totals: NodeTotals<V>,
        functions: F,
        gain: V,
    ) -> bool {
        let plain = plain_gain(sides, totals, self.lambda);
        if crate::number::above(self.entropy_weight, crate::number::small(0)) {
            gain == crate::number::plus(
                plain,
                crate::number::times(
                    self.entropy_weight,
                    entropy_of(&functions, sides.left_count, sides.right_count, totals.count),
                ),
            )
        } else {
            gain == plain
        }
    }

    /// The scan over the first `n` bins of a feature. Empty bins are passed
    /// over; `gains` holds the gain of a split after each bin; a split takes the
    /// place of the best so far only if it gains more.
    pub open spec fn scan(
        &self,
        bins: Seq<BinEntry<V>>,
        feature_idx: usize,
        totals: NodeTotals<V>,
        gains: Seq<V>,
        n: int,
    ) -> Scan<V>
        decreases n,
    {
        if n <= 0 {
            Scan {
                gradient: crate::number::small(0),
                hessian: crate::number::small(0),
                count: 0,
                best: no_split(feature_idx),
            }
        } else {
            let before = self.scan(bins, feature_idx, totals, gains, n - 1);
            let entry = bins[n - 1];
            if entry.count == 0 {
                before
            } else {
                let gradient = crate::number::plus(before.gradient, entry.sum_gradients);
                let hessian = crate::number::plus(before.hessian, entry.sum_hessians);
                let count = (before.count + entry.count) as nat;
                let sides = sides_of(gradient, hessian, count, totals);
                let better = self.admissible(feature_idx as int, sides) && crate::number::above(
                    gains[n - 1],
                    before.best.gain,
                );
                Scan {
                    gradient,
                    hessian,
                    count,
                    best: if better {
                        split_with(feature_idx, n - 1, gains[n - 1], sides)
                    } else {
                        before.best
                    },
                }
            }
        }
    }

    /// The sides of the split after bin `b`.
    pub open spec fn sides_after(
        &self,
        bins: Seq<BinEntry<V>>,
        totals: NodeTotals<V>,
        b: int,
    ) -> Sides<V> {
        let s = self.scan(bins, 0, totals, Seq::empty(), b + 1);
        sides_of(s.gradient, s.hessian, s.count, totals)
    }

    /// The split after bin `b` is one to consider: the bin is not empty and the
    /// sides are admissible.
    pub open spec fn considered(
        &self,
        bins: Seq<BinEntry<V>>,
        feature_idx: usize,
        totals: NodeTotals<V>,
        b: int,
    ) -> bool {
        bins[b].count > 0 && self.admissible(
            feature_idx as int,
            self.sides_after(bins, totals, b),
        )
    }

    /// `gains` holds the gain of every split to consider.
    pub open spec fn gains_known<F: Functions<V>>(
        &self,
        bins: Seq<BinEntry<V>>,
        feature_idx: usize,
        totals: NodeTotals<V>,
        functions: F,
        gains: Seq<V>,
        n: int,
    ) -> bool {
        forall|b: int|
            #![trigger gains[b]]
            0 <= b < n && self.considered(bins, feature_idx, totals, b) ==> self.gains(
                self.sides_after(bins, totals, b),
                totals,
                functions,
                gains[b],
            )
    }

    /// `r` may be the best split on a feature.
    pub open spec fn finds_for_feature<F: Functions<V>>(
        &self,
        bins: Seq<BinEntry<V>>,
        feature_idx: usize,
        totals: NodeTotals<V>,
        functions: F,
        r: Option<SplitInfo<V>>,
    ) -> bool {
        exists|gains: Seq<V>|
            {
                &&& gains.len() == NUM_BINS
                &&& #[trigger] self.gains_known(
                    bins,
                    feature_idx,
                    totals,
                    functions,
                    gains,
                    NUM_BINS as int,
                )
                &&& r == self.verdict(
                    feature_idx,
                    self.scan(bins, feature_idx, totals, gains, NUM_BINS as int).best,
                )
            }
    }

    /// There is no entropy to weigh and no constraint to keep.
    pub open spec fn simple(&self, feature_idx: int) -> bool {
        crate::number::same(self.entropy_weight, crate::number::small(0)) && self.constraint(
            feature_idx,
        ) is Unconstrained
    }

    /// What is made of the best split on a feature: it must be a split, and on
    /// a simple feature it must gain enough.
    pub open spec fn verdict(&self, feature_idx: usize, best: SplitInfo<V>) -> Option<
        SplitInfo<V>,
    > {
        if best.valid() && !(self.simple(feature_idx as int) && crate::number::below(
            best.gain,
            self.min_gain,
        )) {
            Some(best)
        } else {
            None
        }
    }

    /// The best of a list of splits: the first that gains more than all before.
    pub open spec fn pick(found: Seq<Option<SplitInfo<V>>>) -> SplitInfo<V>
        decreases found.len(),
    {
        if found.len() == 0 {
            no_split(0)
        } else {
            let before = Self::pick(found.drop_last());
            match found.last() {
                Some(s) => if crate::number::above(s.gain, before.gain) {
                    s
                } else {
                    before
                },
                None => before,
            }
        }
    }

    /// `r` may be the best split over the features in `order`.
    pub open spec fn finds<F: Functions<V>>(
        &self,
        histograms: Seq<Seq<BinEntry<V>>>,
        order: Seq<usize>,
        totals: NodeTotals<V>,
        functions: F,
        r: Option<SplitInfo<V>>,
    ) -> bool {
        exists|found: Seq<Option<SplitInfo<V>>>|
            {
                &&& #[trigger] self.found_on(histograms, order, totals, functions, found)
                &&& r == self.decide(Self::pick(found))
            }
    }

    /// `found` may hold the best split on each feature of `order`.
    pub open spec fn found_on<F: Functions<V>>(
        &self,
        histograms: Seq<Seq<BinEntry<V>>>,
        order: Seq<usize>,
        totals: NodeTotals<V>,
        functions: F,
        found: Seq<Option<SplitInfo<V>>>,
    ) -> bool {
        &&& found.len() == order.len()
        &&& forall|i: int|
            0 <= i < order.len() ==> self.finds_for_feature(
                histograms[order[i] as int],
                order[i],
                totals,
                functions,
                #[trigger] found[i],
            )
    }

    /// What is made of the best split of a node: it must be a split that gains
    /// enough.
    pub open spec fn decide(&self, best: SplitInfo<V>) -> Option<SplitInfo<V>> {
        if best.valid() && crate::number::at_least(best.gain, self.min_gain) {
            Some(best)
        } else {
            None
        }
    }
}

/// The features that are looked at: those of the mask that exist, or all.
pub open spec fn looked_at(mask: Option<Seq<usize>>, num_features: nat) -> Seq<usize> {
    match mask {
        Some(features) => features.filter(|f: usize| f < num_features),
        None => Seq::new(num_features, |i: int| i as usize),
    }
}

/// The number of rows that a scan has passed is the number in its bins.
pub proof fn lemma_scan_count<V: Number>(
    finder: &SplitFinder<V>,
    bins: Seq<BinEntry<V>>,
    feature_idx: usize,
    totals: NodeTotals<V>,
    gains: Seq<V>,
    n: int,
)
    requires
        0 <= n <= bins.len(),
    ensures
        finder.scan(bins, feature_idx, totals, gains, n).count
            == crate::tree::histogram::count_below(bins, n),
    decreases n,
{
    if n > 0 {
        lemma_scan_count(finder, bins, feature_idx, totals, gains, n - 1);
    }
}

/// What a scan has added up depends on the bins alone.
proof fn lemma_scan_sums<V: Number>(
    finder: &SplitFinder<V>,
    bins: Seq<BinEntry<V>>,
    feature_idx: usize,
    totals: NodeTotals<V>,
    gains: Seq<V>,
    n: int,
)
    ensures
        ({
            let a = finder.scan(bins, feature_idx, totals, gains, n);
            let b = finder.scan(bins, 0, totals, Seq::empty(), n);
            a.gradient == b.gradient && a.hessian == b.hessian && a.count == b.count
        }),
    decreases n,
{
    if n > 0 {
        lemma_scan_sums(finder, bins, feature_idx, totals, gains, n - 1);
    }
}

/// A scan depends on the gains of the bins it has passed alone.
proof fn lemma_scan_prefix<V: Number>(
    finder: &SplitFinder<V>,
    bins: Seq<BinEntry<V>>,
    feature_idx: usize,
    totals: NodeTotals<V>,
    a: Seq<V>,
    b: Seq<V>,
    n: int,
)
    requires
        n <= a.len(),
        n <= b.len(),
        forall|i: int| 0 <= i < n ==> a[i] == b[i],
    ensures
        finder.scan(bins, feature_idx, totals, a, n) == finder.scan(
            bins,
            feature_idx,
            totals,
            b,
            n,
        ),
    decreases n,
{
    if n > 0 {
        lemma_scan_prefix(finder, bins, feature_idx, totals, a, b, n - 1);
    }
}

/// One more feature has been searched.
proof fn lemma_found_push<V: Number, F: Functions<V>>(
    finder: &SplitFinder<V>,
    histograms: Seq<Seq<BinEntry<V>>>,
    order: Seq<usize>,
    totals: NodeTotals<V>,
    functions: F,
    found: Seq<Option<SplitInfo<V>>>,
    feature_idx: usize,
    r: Option<SplitInfo<V>>,
)
    requires
        finder.found_on(histograms, order, totals, functions, found),
        finder.finds_for_feature(
            histograms[feature_idx as int],
            feature_idx,
            totals,
            functions,
            r,
        ),
    ensures
        finder.found_on(histograms, order.push(feature_idx), totals, functions, found.push(r)),
{
    let longer = order.push(feature_idx);
    let now = found.push(r);
    assert forall|i: int| 0 <= i < longer.len() implies finder.finds_for_feature(
        histograms[longer[i] as int],
        longer[i],
        totals,
        functions,
        #[trigger] now[i],
    ) by {
        if i < order.len() {
            assert(now[i] == found[i] && longer[i] == order[i]);
        }
    }
}

/// A count grows with the bins.
pub proof fn lemma_count_below_grows<V>(bins: Seq<BinEntry<V>>, n: int, m: int)
    requires
        n <= m <= bins.len(),
    ensures
        crate::tree::histogram::count_below(bins, n) <= crate::tree::histogram::count_below(
            bins,
            m,
        ),
    decreases m - n,
{
    if n < m {
        lemma_count_below_grows(bins, n, m - 1);
    }
}

impl<V: Number> Default for SplitFinder<V> {
    /// A finder with the usual settings.
    fn default() -> (r: Self)
        ensures
            r.min_samples_leaf == 1,
            r.monotonic_constraints@ == Seq::<MonotonicConstraint>::empty(),
            crate::number::arithmetic::<V>() ==> {
                &&& r.lambda == crate::number::small::<V>(1)
                &&& r.min_hessian_leaf == crate::number::small::<V>(1)
                &&& r.entropy_weight == crate::number::small::<V>(0)
                &&& r.min_gain == crate::number::small::<V>(0)
            },
    {
        SplitFinder {
            lambda: V::from(1u8),
            min_samples_leaf: 1,
            min_hessian_leaf: V::from(1u8),
            entropy_weight: V::from(0u8),
            min_gain: V::from(0u8),
            monotonic_constraints: Vec::new(),
        }
    }
}

impl<V: Number> SplitFinder<V> {
    /// A finder with the usual settings.
    pub fn new() -> (r: Self)
        requires
            crate::number::arithmetic::<V>(),
        ensures
            r.lambda == crate::number::small::<V>(1),
            r.min_samples_leaf == 1,
            r.min_hessian_leaf == crate::number::small::<V>(1),
            r.entropy_weight == crate::number::small::<V>(0),
            r.min_gain == crate::number::small::<V>(0),
            r.monotonic_constraints@ == Seq::<MonotonicConstraint>::empty(),
    {
        SplitFinder {
            lambda: V::from(1u8),
            min_samples_leaf: 1,
            min_hessian_leaf: V::from(1u8),
            entropy_weight: V::from(0u8),
            min_gain: V::from(0u8),
            monotonic_constraints: Vec::new(),
        }
    }

    /// Sets the L2 regularization.
    pub fn with_lambda(self, lambda: V) -> (r: Self)
        ensures
            r == (SplitFinder { lambda, ..self }),
    {
        let mut s = self;
        s.lambda = lambda;
        s
    }

    /// Sets the least number of rows of a leaf.
    pub fn with_min_samples_leaf(self, min_samples: usize) -> (r: Self)
        ensures
            r == (SplitFinder { min_samples_leaf: min_samples, ..self }),
    {
        let mut s = self;
        s.min_samples_leaf = min_samples;
        s
    }

    /// Sets the least sum of hessians of a leaf.
    pub fn with_min_hessian_leaf(self, min_hessian: V) -> (r: Self)
        ensures
            r == (SplitFinder { min_hessian_leaf: min_hessian, ..self }),
    {
        let mut s = self;
        s.min_hessian_leaf = min_hessian;
        s
    }

    /// Sets the weight of the entropy of a split.
    pub fn with_entropy_weight(self, weight: V) -> (r: Self)
        ensures
            r == (SplitFinder { entropy_weight: weight, ..self }),
    {
        let mut s = self;
        s.entropy_weight = weight;
        s
    }

    /// Sets the least gain of a split.
    pub fn with_min_gain(self, min_gain: V) -> (r: Self)
        ensures
            r == (SplitFinder { min_gain, ..self }),
    {
        let mut s = self;
        s.min_gain = min_gain;
        s
    }

    /// Sets the constraint of each feature; features beyond the list have none.
    pub fn with_monotonic_constraints(self, constraints: Vec<MonotonicConstraint>) -> (r: Self)
        ensures
            r == (SplitFinder { monotonic_constraints: constraints, ..self }),
    {
        let mut s = self;
        s.monotonic_constraints = constraints;
        s
    }

    /// The constraint of a feature.
    pub fn get_constraint(&self, feature_idx: usize) -> (r: MonotonicConstraint)
        ensures
            r == self.constraint(feature_idx as int),
    {
        if feature_idx < self.monotonic_constraints.len() {
            self.monotonic_constraints[feature_idx]
        } else {
            MonotonicConstraint::Unconstrained
        }
    }

    /// Whether the plain scan will do for a feature: there is no entropy to
    /// weigh and no constraint to keep.
    pub fn can_use_simd(&self, feature_idx: usize) -> (r: bool)
        requires
            crate::number::arithmetic::<V>(),
        ensures
            r == self.simple(feature_idx as int),
    {
        let zero: V = V::from(0u8);
        self.entropy_weight == zero && self.get_constraint(feature_idx)
            == MonotonicConstraint::Unconstrained
    }

    /// Whether the sides of a split respect the constraint of its feature.
    pub fn satisfies_monotonic_constraint(&self, feature_idx: usize, sides: Sides<V>) -> (r: bool)
        requires
            crate::number::arithmetic::<V>(),
        ensures
            r == self.monotonic(feature_idx as int, sides),
    {
        let constraint = self.get_constraint(feature_idx);
        match constraint {
            MonotonicConstraint::Unconstrained => true,
            MonotonicConstraint::Increasing => {
                let left = leaf_weight(sides.left_gradient, sides.left_hessian, self.lambda);
                let right = leaf_weight(sides.right_gradient, sides.right_hessian, self.lambda);
                left <= right
            },
            MonotonicConstraint::Decreasing => {
                let left = leaf_weight(sides.left_gradient, sides.left_hessian, self.lambda);
                let right = leaf_weight(sides.right_gradient, sides.right_hessian, self.lambda);
                left >= right
            },
        }
    }

    /// The entropy of a split from its numbers of rows: left, right and in all.
    pub fn split_entropy<F: Functions<V>>(
        &self,
        left_count: u32,
        right_count: u32,
        total_count: u32,
        functions: &F,
    ) -> (r: V)
        requires
            crate::number::arithmetic::<V>(),
            crate::functions::computes(functions),
        ensures
            r == entropy_of(functions, left_count, right_count, total_count),
    {
        let zero: V = V::from(0u8);
        if total_count == 0 || left_count == 0 || right_count == 0 {
            return zero;
        }
        let one: V = V::from(1u8);
        let p: V = functions.count(left_count as usize) / functions.count(total_count as usize);
        let q: V = one - p;
        if p > zero && q > zero {
            (p * functions.log2(p) + q * functions.log2(q)).neg()
        } else {
            zero
        }
    }

    /// The gain of a split with the given sides.
    pub fn compute_gain<F: Functions<V>>(
        &self,
        sides: Sides<V>,
        totals: NodeTotals<V>,
        functions: &F,
    ) -> (r: V)
        requires
            crate::number::arithmetic::<V>(),
            crate::functions::computes(functions),
        ensures
            self.gains(sides, totals, *functions, r),
    {
        let left = side_score(sides.left_gradient, sides.left_hessian, self.lambda);
        let right = side_score(sides.right_gradient, sides.right_hessian, self.lambda);
        let parent = side_score(totals.gradient, totals.hessian, self.lambda);
        let two: V = V::from(2u8);
        let plain = (left + right - parent) / two;
        let zero: V = V::from(0u8);
        if self.entropy_weight > zero {
            let h = self.split_entropy(
                sides.left_count,
                sides.right_count,
                totals.count,
                functions,
            );
            plain + self.entropy_weight * h
        } else {
            plain
        }
    }

    /// Scans the bins of a feature for the best split, and recalls the gains.
    fn scan_bins<F: Functions<V>>(
        &self,
        histogram: &Histogram<V>,
        feature_idx: usize,
        totals: NodeTotals<V>,
        functions: &F,
    ) -> (r: (SplitInfo<V>, Ghost<Seq<V>>))
        requires
            crate::number::arithmetic::<V>(),
            histogram.wf(),
            crate::tree::histogram::count_below(histogram@, NUM_BINS as int) <= totals.count,
            crate::functions::computes(functions),
        ensures
            r.1@.len() == NUM_BINS,
            self.gains_known(
                histogram@,
                feature_idx,
                totals,
                *functions,
                r.1@,
                NUM_BINS as int,
            ),
            r.0 == self.scan(histogram@, feature_idx, totals, r.1@, NUM_BINS as int).best,
    {
        let bins = histogram.bins();
        let mut best: SplitInfo<V> = SplitInfo::none(feature_idx);
        let mut gradient: V = V::from(0u8);
        let mut hessian: V = V::from(0u8);
        let mut count: u32 = 0;
        let mut bin: usize = 0;
        let ghost mut gains: Seq<V> = Seq::empty();
        while bin < NUM_BINS
            invariant
                crate::number::arithmetic::<V>(),
                bins@ == histogram@,
                histogram.wf(),
                crate::tree::histogram::count_below(histogram@, NUM_BINS as int) <= totals.count,
                crate::functions::computes(functions),
                bin <= NUM_BINS,
                gains.len() == bin,
                self.gains_known(histogram@, feature_idx, totals, *functions, gains, bin as int),
                ({
                    let s = self.scan(histogram@, feature_idx, totals, gains, bin as int);
                    s.gradient == gradient && s.hessian == hessian && s.count == count && s.best
                        == best
                }),
            decreases NUM_BINS - bin,
        {
            let entry = bins[bin];
            let ghost known = gains;
            let mut gain: V = gradient;
            if entry.count != 0 {
                proof {
                    lemma_scan_count(
                        self,
                        histogram@,
                        feature_idx,
                        totals,
                        gains,
                        bin as int,
                    );
                    lemma_count_below_grows(histogram@, bin + 1, NUM_BINS as int);
                }
                gradient = gradient + entry.sum_gradients;
                hessian = hessian + entry.sum_hessians;
                count = count + entry.count;
                let sides = Sides {
                    left_gradient: gradient,
                    left_hessian: hessian,
                    left_count: count,
                    right_gradient: totals.gradient - gradient,
                    right_hessian: totals.hessian - hessian,
                    right_count: totals.count - count,
                };
                let large = sides.left_count as usize >= self.min_samples_leaf
                    && sides.right_count as usize >= self.min_samples_leaf;
                if large && !(sides.left_hessian < self.min_hessian_leaf) && !(sides.right_hessian
                    < self.min_hessian_leaf) && self.satisfies_monotonic_constraint(
                    feature_idx,
                    sides,
                ) {
                    gain = self.compute_gain(sides, totals, functions);
                    if gain > best.gain {
                        best =
                        SplitInfo {
                            feature_idx,
                            bin_threshold: bin as u8,
                            gain,
                            left_gradient: sides.left_gradient,
                            left_hessian: sides.left_hessian,
                            left_count: sides.left_count,
                            right_gradient: sides.right_gradient,
                            right_hessian: sides.right_hessian,
                            right_count: sides.right_count,
                        };
                    }
                }
            }
            proof {
                gains = known.push(gain);
                lemma_scan_prefix(
                    self,
                    histogram@,
                    feature_idx,
                    totals,
                    known,
                    gains,
                    bin as int,
                );
                lemma_scan_sums(self, histogram@, feature_idx, totals, gains, bin + 1);
                assert forall|b: int|
                    #![trigger gains[b]]
                    0 <= b < bin + 1 && self.considered(
                        histogram@,
                        feature_idx,
                        totals,
                        b,
                    ) implies self.gains(
                    self.sides_after(histogram@, totals, b),
                    totals,
                    *functions,
                    gains[b],
                ) by {
                    if b < bin {
                        assert(gains[b] == known[b]);
                    }
                }
            }
            bin = bin + 1;
        }
        (best, Ghost(gains))
    }

    /// The best split on one feature, whatever it gains.
    pub fn find_best_split_for_feature_scalar<F: Functions<V>>(
        &self,
        histogram: &Histogram<V>,
        feature_idx: usize,
        totals: NodeTotals<V>,
        functions: &F,
    ) -> (r: Option<SplitInfo<V>>)
        requires
            crate::number::arithmetic::<V>(),
            histogram.wf(),
            crate::tree::histogram::count_below(histogram@, NUM_BINS as int) <= totals.count,
            crate::functions::computes(functions),
        ensures
            exists|gains: Seq<V>|
                {
                    &&& gains.len() == NUM_BINS
                    &&& #[trigger] self.gains_known(
                        histogram@,
                        feature_idx,
                        totals,
                        *functions,
                        gains,
                        NUM_BINS as int,
                    )
                    &&& r == ({
                        let best = self.scan(
                            histogram@,
                            feature_idx,
                            totals,
                            gains,
                            NUM_BINS as int,
                        ).best;
                        if best.valid() {
                            Some(best)
                        } else {
                            None
                        }
                    })
                },
    {
        let (best, _gains) = self.scan_bins(histogram, feature_idx, totals, functions);
        if best.is_valid() {
            Some(best)
        } else {
            None
        }
    }

    /// The best split on a feature without constraint, if it gains enough.
    pub fn find_best_split_for_feature_simd<F: Functions<V>>(
        &self,
        histogram: &Histogram<V>,
        feature_idx: usize,
        totals: NodeTotals<V>,
        functions: &F,
    ) -> (r: Option<SplitInfo<V>>)
        requires
            crate::number::arithmetic::<V>(),
            histogram.wf(),
            self.simple(feature_idx as int),
            crate::tree::histogram::count_below(histogram@, NUM_BINS as int) <= totals.count,
            crate::functions::computes(functions),
        ensures
            self.finds_for_feature(histogram@, feature_idx, totals, *functions, r),
    {
        match self.find_best_split_for_feature_scalar(histogram, feature_idx, totals, functions) {
            Some(best) => if best.gain < self.min_gain {
                None
            } else {
                Some(best)
            },
            None => None,
        }
    }

    /// The best split on one feature.
    pub fn find_best_split_for_feature<F: Functions<V>>(
        &self,
        histogram: &Histogram<V>,
        feature_idx: usize,
        totals: NodeTotals<V>,
        functions: &F,
    ) -> (r: Option<SplitInfo<V>>)
        requires
            crate::number::arithmetic::<V>(),
            histogram.wf(),
            crate::tree::histogram::count_below(histogram@, NUM_BINS as int) <= totals.count,
            crate::functions::computes(functions),
        ensures
            self.finds_for_feature(histogram@, feature_idx, totals, *functions, r),
    {
        if self.can_use_simd(feature_idx) {
            self.find_best_split_for_feature_simd(histogram, feature_idx, totals, functions)
        } else {
            self.find_best_split_for_feature_scalar(histogram, feature_idx, totals, functions)
        }
    }

    /// The best split over all features.
    pub fn find_best_split<F: Functions<V>>(
        &self,
        histograms: &NodeHistograms<V>,
        total_gradient: V,
        total_hessian: V,
        total_count: u32,
        functions: &F,
    ) -> (r: Option<SplitInfo<V>>)
        requires
            crate::number::arithmetic::<V>(),
            histograms.wf(),
            histograms.fits(total_count),
            crate::functions::computes(functions),
        ensures
            self.finds(
                histograms@,
                looked_at(None, histograms@.len()),
                NodeTotals { gradient: total_gradient, hessian: total_hessian, count: total_count },
                *functions,
                r,
            ),
    {
        self.find_best_split_with_features(
            histograms,
            total_gradient,
            total_hessian,
            total_count,
            None,
            functions,
        )
    }

    /// The best split over the features of a mask; without a mask, over all.
    /// Entries of the mask that are no feature are passed over.
    pub fn find_best_split_with_features<F: Functions<V>>(
        &self,
        histograms: &NodeHistograms<V>,
        total_gradient: V,
        total_hessian: V,
        total_count: u32,
        feature_mask: Option<&[usize]>,
        functions: &F,
    ) -> (r: Option<SplitInfo<V>>)
        requires
            crate::number::arithmetic::<V>(),
            histograms.wf(),
            histograms.fits(total_count),
            crate::functions::computes(functions),
        ensures
            self.finds(
                histograms@,
                looked_at(
                    match feature_mask {
                        Some(features) => Some(features@),
                        None => None,
                    },
                    histograms@.len(),
                ),
                NodeTotals { gradient: total_gradient, hessian: total_hessian, count: total_count },
                *functions,
                r,
            ),
    {
        let totals = NodeTotals {
            gradient: total_gradient,
            hessian: total_hessian,
            count: total_count,
        };
        let num_features: usize = histograms.num_features();
        let mut best: SplitInfo<V> = SplitInfo::none(0);
        let ghost mut found: Seq<Option<SplitInfo<V>>> = Seq::empty();
        match feature_mask {
            Some(features) => {
                let ghost keep = |f: usize| f < num_features;
                let mut n: usize = 0;
                assert(features@.take(0).filter(keep) =~= Seq::<usize>::empty());
                while n < features.len()
                    invariant
                        crate::number::arithmetic::<V>(),
                        histograms.wf(),
                        histograms.fits(total_count),
                        total_count == totals.count,
                        num_features == histograms@.len(),
                        crate::functions::computes(functions),
                        n <= features.len(),
                        keep == (|f: usize| f < num_features),
                        self.found_on(
                            histograms@,
                            features@.take(n as int).filter(keep),
                            totals,
                            *functions,
                            found,
                        ),
                        best == Self::pick(found),
                    decreases features.len() - n,
                {
                    let feature_idx: usize = features[n];
                    let ghost before = features@.take(n as int).filter(keep);
                    let ghost known = found;
                    proof {
                        assert(features@.take(n + 1).drop_last() =~= features@.take(n as int));
                        assert(features@.take(n + 1).last() == feature_idx);
                        reveal(Seq::filter);
                    }
                    if feature_idx < num_features {
                        let r = self.find_best_split_for_feature(
                            histograms.get(feature_idx),
                            feature_idx,
                            totals,
                            functions,
                        );
                        proof {
                            found = known.push(r);
                            assert(found.drop_last() =~= known);
                            assert(features@.take(n + 1).filter(keep) =~= before.push(feature_idx));
                            lemma_found_push(
                                self,
                                histograms@,
                                before,
                                totals,
                                *functions,
                                known,
                                feature_idx,
                                r,
                            );
                        }
                        match r {
                            Some(split) => {
                                if split.gain > best.gain {
                                    best = split;
                                }
                            },
                            None => {},
                        }
                    } else {
                        assert(features@.take(n + 1).filter(keep) =~= before);
                    }
                    n = n + 1;
                }
                proof {
                    assert(features@.take(n as int) =~= features@);
                    let other = |f: usize| f < histograms@.len();
                    assert(keep =~= other);
                }
            },
            None => {
                let ghost order = looked_at(None, histograms@.len());
                let mut feature_idx: usize = 0;
                while feature_idx < num_features
                    invariant
                        crate::number::arithmetic::<V>(),
                        histograms.wf(),
                        histograms.fits(total_count),
                        total_count == totals.count,
                        num_features == histograms@.len(),
                        crate::functions::computes(functions),
                        feature_idx <= num_features,
                        order == looked_at(None, histograms@.len()),
                        self.found_on(
                            histograms@,
                            order.take(feature_idx as int),
                            totals,
                            *functions,
                            found,
                        ),
                        best == Self::pick(found),
                    decreases num_features - feature_idx,
                {
                    let ghost known = found;
                    let r = self.find_best_split_for_feature(
                        histograms.get(feature_idx),
                        feature_idx,
                        totals,
                        functions,
                    );
                    proof {
                        found = known.push(r);
                        assert(found.drop_last() =~= known);
                        assert(order[feature_idx as int] == feature_idx);
                        lemma_found_push(
                            self,
                            histograms@,
                            order.take(feature_idx as int),
                            totals,
                            *functions,
                            known,
                            feature_idx,
                            r,
                        );
                        assert(order.take(feature_idx + 1) =~= order.take(
                            feature_idx as int,
                        ).push(feature_idx));
                    }
                    match r {
                        Some(split) => {
                            if split.gain > best.gain {
                                best = split;
                            }
                        },
                        None => {},
                    }
                    feature_idx = feature_idx + 1;
                }
                assert(order.take(feature_idx as int) =~= order);
            },
        }
        if best.is_valid() && best.gain >= self.min_gain {
            Some(best)
        } else {
            None
        }
    }
}

/// Computes [`score`].
pub fn side_score<V: Number>(gradient: V, hessian: V, lambda: V) -> (r: V)
    requires
        crate::number::arithmetic::<V>(),
    ensures
        r == score(gradient, hessian, lambda),
{
    (gradient * gradient) / (hessian + lambda)
}

/// Computes [`weight`].
pub fn leaf_weight<V: Number>(gradient: V, hessian: V, lambda: V) -> (r: V)
    requires
        crate::number::arithmetic::<V>(),
    ensures
        r == weight(gradient, hessian, lambda),
{
    gradient.neg() / (hessian + lambda)
}

/// The best split of a scan is one of those to consider, or none.
pub proof fn law_best_split_is_considered<V: Number>(
    finder: &SplitFinder<V>,
    bins: Seq<BinEntry<V>>,
    feature_idx: usize,
    totals: NodeTotals<V>,
    gains: Seq<V>,
    n: int,
)
    requires
        0 <= n <= NUM_BINS,
    ensures
        ({
            let best = finder.scan(bins, feature_idx, totals, gains, n).best;
            best == no_split::<V>(feature_idx) || exists|b: int|
                {
                    &&& 0 <= b < n
                    &&& #[trigger] finder.considered(bins, feature_idx, totals, b)
                    &&& best == split_with(
                        feature_idx,
                        b,
                        gains[b],
                        finder.sides_after(bins, totals, b),
                    )
                }
        }),
    decreases n,
{
    if n > 0 {
        law_best_split_is_considered(finder, bins, feature_idx, totals, gains, n - 1);
        lemma_scan_sums(finder, bins, feature_idx, totals, gains, n);
        let before = finder.scan(bins, feature_idx, totals, gains, n - 1).best;
        let best = finder.scan(bins, feature_idx, totals, gains, n).best;
        if best != before {
            assert(finder.considered(bins, feature_idx, totals, n - 1));
        }
    }
}

/// No split to consider gains more than the best split of a scan.
pub proof fn law_best_split_is_best<V: Number>(
    finder: &SplitFinder<V>,
    bins: Seq<BinEntry<V>>,
    feature_idx: usize,
    totals: NodeTotals<V>,
    gains: Seq<V>,
    n: int,
)
    requires
        crate::number::ordered::<V>(),
        0 <= n <= NUM_BINS,
    ensures
        forall|b: int|
            0 <= b < n && #[trigger] finder.considered(bins, feature_idx, totals, b)
                ==> !crate::number::above(
                gains[b],
                finder.scan(bins, feature_idx, totals, gains, n).best.gain,
            ),
    decreases n,
{
    if n > 0 {
        law_best_split_is_best(finder, bins, feature_idx, totals, gains, n - 1);
        lemma_scan_sums(finder, bins, feature_idx, totals, gains, n);
        let before = finder.scan(bins, feature_idx, totals, gains, n - 1).best;
        let best = finder.scan(bins, feature_idx, totals, gains, n).best;
        assert forall|b: int|
            0 <= b < n && #[trigger] finder.considered(
                bins,
                feature_idx,
                totals,
                b,
            ) implies !crate::number::above(gains[b], best.gain) by {
            if b < n - 1 {
                if crate::number::above(gains[n - 1], before.gain) && crate::number::above(
                    gains[b],
                    gains[n - 1],
                ) {
                    assert(crate::number::above(gains[b], before.gain));
                }
            }
        }
    }
}

/// The split that is picked from a list is in the list, unless it stands for
/// none.
pub proof fn law_pick_is_found<V: Number>(found: Seq<Option<SplitInfo<V>>>)
    ensures
        SplitFinder::<V>::pick(found) == no_split::<V>(0) || exists|i: int|
            0 <= i < found.len() && #[trigger] found[i] == Some(SplitFinder::<V>::pick(found)),
    decreases found.len(),
{
    if found.len() > 0 {
        let fewer = found.drop_last();
        law_pick_is_found(fewer);
        let before = SplitFinder::<V>::pick(fewer);
        let now = SplitFinder::<V>::pick(found);
        if now == before && before != no_split::<V>(0) {
            let i = choose|i: int| 0 <= i < fewer.len() && #[trigger] fewer[i] == Some(before);
            assert(found[i] == Some(now));
        } else if now != before {
            assert(found[found.len() - 1] == Some(now));
        }
    }
}

/// The split that is found for a node is the split that is found on its
/// feature, which is one of those looked at.
pub proof fn lemma_found_on_feature<V: Number, F: Functions<V>>(
    finder: &SplitFinder<V>,
    histograms: Seq<Seq<BinEntry<V>>>,
    order: Seq<usize>,
    totals: NodeTotals<V>,
    functions: F,
    split: SplitInfo<V>,
)
    requires
        finder.finds(histograms, order, totals, functions, Some(split)),
    ensures
        order.contains(split.feature_idx),
        finder.finds_for_feature(
            histograms[split.feature_idx as int],
            split.feature_idx,
            totals,
            functions,
            Some(split),
        ),
        split.valid(),
{
    let found = choose|found: Seq<Option<SplitInfo<V>>>|
        {
            &&& #[trigger] finder.found_on(histograms, order, totals, functions, found)
            &&& Some(split) == finder.decide(SplitFinder::<V>::pick(found))
        };
    law_pick_is_found(found);
    let i = choose|i: int| 0 <= i < found.len() && #[trigger] found[i] == Some(split);
    assert(finder.finds_for_feature(
        histograms[order[i] as int],
        order[i],
        totals,
        functions,
        found[i],
    ));
    law_constraint_is_kept(finder, histograms[order[i] as int], order[i], totals, functions, split);
}

/// What is on the right of a split is what the left leaves of the whole.
pub open spec fn sides_make_up<V: Number>(split: SplitInfo<V>, totals: NodeTotals<V>) -> bool {
    &&& split.right_gradient == crate::number::minus(totals.gradient, split.left_gradient)
    &&& split.right_hessian == crate::number::minus(totals.hessian, split.left_hessian)
}

proof fn lemma_scan_sides<V: Number>(
    finder: &SplitFinder<V>,
    bins: Seq<BinEntry<V>>,
    feature_idx: usize,
    totals: NodeTotals<V>,
    gains: Seq<V>,
    n: int,
)
    ensures
        ({
            let best = finder.scan(bins, feature_idx, totals, gains, n).best;
            best == no_split::<V>(feature_idx) || sides_make_up(best, totals)
        }),
    decreases n,
{
    if n > 0 {
        lemma_scan_sides(finder, bins, feature_idx, totals, gains, n - 1);
    }
}

/// The sides of the split that is found for a node make up the whole.
pub proof fn law_sides_make_up_the_node<V: Number, F: Functions<V>>(
    finder: &SplitFinder<V>,
    histograms: Seq<Seq<BinEntry<V>>>,
    order: Seq<usize>,
    totals: NodeTotals<V>,
    functions: F,
    split: SplitInfo<V>,
)
    requires
        finder.finds(histograms, order, totals, functions, Some(split)),
    ensures
        sides_make_up(split, totals),
{
    lemma_found_on_feature(finder, histograms, order, totals, functions, split);
    let f = split.feature_idx;
    let bins = histograms[f as int];
    let gains = choose|gains: Seq<V>|
        {
            &&& gains.len() == NUM_BINS
            &&& #[trigger] finder.gains_known(
                bins,
                f,
                totals,
                functions,
                gains,
                NUM_BINS as int,
            )
            &&& Some(split) == finder.verdict(
                f,
                finder.scan(bins, f, totals, gains, NUM_BINS as int).best,
            )
        };
    lemma_scan_sides(finder, bins, f, totals, gains, NUM_BINS as int);
}

/// No split of a list gains more than the one that is picked.
pub proof fn law_pick_is_best<V: Number>(found: Seq<Option<SplitInfo<V>>>)
    requires
        crate::number::ordered::<V>(),
    ensures
        forall|i: int|
            0 <= i < found.len() && (#[trigger] found[i]) is Some ==> !crate::number::above(
                found[i]->Some_0.gain,
                SplitFinder::<V>::pick(found).gain,
            ),
    decreases found.len(),
{
    if found.len() > 0 {
        let fewer = found.drop_last();
        law_pick_is_best(fewer);
        let before = SplitFinder::<V>::pick(fewer);
        let now = SplitFinder::<V>::pick(found);
        assert forall|i: int|
            0 <= i < found.len() && (#[trigger] found[i]) is Some implies !crate::number::above(
            found[i]->Some_0.gain,
            now.gain,
        ) by {
            if i < fewer.len() {
                assert(found[i] == fewer[i]);
                if now != before && crate::number::above(found[i]->Some_0.gain, now.gain) {
                    assert(crate::number::above(found[i]->Some_0.gain, before.gain));
                }
            }
        }
    }
}

/// A feature with a constraint is only split so that the values of the two
/// leaves respect it.
pub proof fn law_constraint_is_kept<V: Number, F: Functions<V>>(
    finder: &SplitFinder<V>,
    bins: Seq<BinEntry<V>>,
    feature_idx: usize,
    totals: NodeTotals<V>,
    functions: F,
    split: SplitInfo<V>,
)
    requires
        finder.finds_for_feature(bins, feature_idx, totals, functions, Some(split)),
    ensures
        split.feature_idx == feature_idx,
        finder.constraint(feature_idx as int) is Increasing ==> crate::number::at_most(
            weight(split.left_gradient, split.left_hessian, finder.lambda),
            weight(split.right_gradient, split.right_hessian, finder.lambda),
        ),
        finder.constraint(feature_idx as int) is Decreasing ==> crate::number::at_least(
            weight(split.left_gradient, split.left_hessian, finder.lambda),
            weight(split.right_gradient, split.right_hessian, finder.lambda),
        ),
        split.left_count >= finder.min_samples_leaf,
        split.right_count >= finder.min_samples_leaf,
{
    let gains = choose|gains: Seq<V>|
        {
            &&& gains.len() == NUM_BINS
            &&& #[trigger] finder.gains_known(
                bins,
                feature_idx,
                totals,
                functions,
                gains,
                NUM_BINS as int,
            )
            &&& Some(split) == finder.verdict(
                feature_idx,
                finder.scan(bins, feature_idx, totals, gains, NUM_BINS as int).best,
            )
        };
    law_best_split_is_considered(finder, bins, feature_idx, totals, gains, NUM_BINS as int);
}

/// The rows of a split: those in the bins up to the threshold are on the left,
/// and all others on the right.
pub proof fn law_split_counts<V: Number, F: Functions<V>>(
    finder: &SplitFinder<V>,
    bins: Seq<BinEntry<V>>,
    feature_idx: usize,
    totals: NodeTotals<V>,
    functions: F,
    split: SplitInfo<V>,
)
    requires
        finder.finds_for_feature(bins, feature_idx, totals, functions, Some(split)),
        bins.len() == NUM_BINS,
        crate::tree::histogram::count_below(bins, NUM_BINS as int) <= totals.count,
    ensures
        split.feature_idx == feature_idx,
        split.left_count == crate::tree::histogram::count_below(bins, split.bin_threshold + 1),
        split.left_count + split.right_count == totals.count,
{
    let gains = choose|gains: Seq<V>|
        {
            &&& gains.len() == NUM_BINS
            &&& #[trigger] finder.gains_known(
                bins,
                feature_idx,
                totals,
                functions,
                gains,
                NUM_BINS as int,
            )
            &&& Some(split) == finder.verdict(
                feature_idx,
                finder.scan(bins, feature_idx, totals, gains, NUM_BINS as int).best,
            )
        };
    law_best_split_is_considered(finder, bins, feature_idx, totals, gains, NUM_BINS as int);
    let b = choose|b: int|
        {
            &&& 0 <= b < NUM_BINS
            &&& #[trigger] finder.considered(bins, feature_idx, totals, b)
            &&& split == split_with(
                feature_idx,
                b,
                gains[b],
                finder.sides_after(bins, totals, b),
            )
        };
    lemma_scan_count(finder, bins, 0, totals, Seq::empty(), b + 1);
    lemma_count_below_grows(bins, b + 1, NUM_BINS as int);
}

/// The loss of a leaf that predicts `w`, to the second order: `gradient` is the
/// sum of its gradients and `hessian` that of its hessians.
pub open spec fn leaf_loss(gradient: real, hessian: real, lambda: real, w: real) -> real {
    gradient * w + (hessian + lambda) * (w * w) / 2real
}

proof fn lemma_least_loss(g: real, h: real, w: real, u: real)
    requires
        h > 0real,
        w == (0real - g) / h,
    ensures
        g * w + h * (w * w) / 2real == 0real - (g * g) / h / 2real,
        g * w + h * (w * w) / 2real <= g * u + h * (u * u) / 2real,
        g * u + h * (u * u) / 2real <= g * w + h * (w * w) / 2real ==> u == w,
{
    assert(g == 0real - h * w) by (nonlinear_arith)
        requires
            h > 0real,
            w == (0real - g) / h,
    ;
    assert((g * g) / h == h * (w * w)) by (nonlinear_arith)
        requires
            h > 0real,
            g == 0real - h * w,
    ;
    assert(g * w + h * (w * w) / 2real == 0real - h * (w * w) / 2real) by (nonlinear_arith)
        requires
            g == 0real - h * w,
    ;
    assert(g * u + h * (u * u) / 2real == h * ((u - w) * (u - w)) / 2real - h * (w * w) / 2real)
        by (nonlinear_arith)
        requires
            g == 0real - h * w,
    ;
    assert(h * ((u - w) * (u - w)) >= 0real) by (nonlinear_arith)
        requires
            h > 0real,
    ;
    assert(u != w ==> h * ((u - w) * (u - w)) > 0real) by (nonlinear_arith)
        requires
            h > 0real,
    ;
}

/// No value of a leaf loses less than the one it gets, and any other loses more.
pub proof fn law_leaf_weight_is_best<V: Number>(
    worth: spec_fn(V) -> real,
    gradient: V,
    hessian: V,
    lambda: V,
    w: real,
)
    requires
        crate::exact::exact(worth),
        worth(hessian) + worth(lambda) > 0real,
    ensures
        leaf_loss(
            worth(gradient),
            worth(hessian),
            worth(lambda),
            worth(weight(gradient, hessian, lambda)),
        ) <= leaf_loss(worth(gradient), worth(hessian), worth(lambda), w),
        w != worth(weight(gradient, hessian, lambda)) ==> leaf_loss(
            worth(gradient),
            worth(hessian),
            worth(lambda),
            worth(weight(gradient, hessian, lambda)),
        ) < leaf_loss(worth(gradient), worth(hessian), worth(lambda), w),
{
    let h = worth(hessian) + worth(lambda);
    lemma_least_loss(worth(gradient), h, worth(weight(gradient, hessian, lambda)), w);
}

/// The score of a side is twice the loss that it is spared when it gets its best
/// value instead of zero.
pub proof fn lemma_score_is_loss_spared<V: Number>(
    worth: spec_fn(V) -> real,
    gradient: V,
    hessian: V,
    lambda: V,
)
    requires
        crate::exact::exact(worth),
        worth(hessian) + worth(lambda) > 0real,
    ensures
        worth(score(gradient, hessian, lambda)) / 2real == 0real - leaf_loss(
            worth(gradient),
            worth(hessian),
            worth(lambda),
            worth(weight(gradient, hessian, lambda)),
        ),
{
    let h = worth(hessian) + worth(lambda);
    lemma_least_loss(worth(gradient), h, worth(weight(gradient, hessian, lambda)), 0real);
}

/// What a split gains is the loss that it takes away: the loss of the node as one
/// leaf, less the losses of the two leaves, each with its best value.
pub proof fn law_gain_is_loss_taken_away<V: Number, F: Functions<V>>(
    worth: spec_fn(V) -> real,
    finder: &SplitFinder<V>,
    sides: Sides<V>,
    totals: NodeTotals<V>,
    functions: F,
    gain: V,
)
    requires
        crate::exact::exact(worth),
        finder.gains(sides, totals, functions, gain),
        worth(finder.entropy_weight) == 0real,
        worth(totals.hessian) + worth(finder.lambda) > 0real,
        worth(sides.left_hessian) + worth(finder.lambda) > 0real,
        worth(sides.right_hessian) + worth(finder.lambda) > 0real,
    ensures
        worth(gain) == leaf_loss(
            worth(totals.gradient),
            worth(totals.hessian),
            worth(finder.lambda),
            worth(weight(totals.gradient, totals.hessian, finder.lambda)),
        ) - leaf_loss(
            worth(sides.left_gradient),
            worth(sides.left_hessian),
            worth(finder.lambda),
            worth(weight(sides.left_gradient, sides.left_hessian, finder.lambda)),
        ) - leaf_loss(
            worth(sides.right_gradient),
            worth(sides.right_hessian),
            worth(finder.lambda),
            worth(weight(sides.right_gradient, sides.right_hessian, finder.lambda)),
        ),
{
    lemma_score_is_loss_spared(worth, totals.gradient, totals.hessian, finder.lambda);
    lemma_score_is_loss_spared(worth, sides.left_gradient, sides.left_hessian, finder.lambda);
    lemma_score_is_loss_spared(worth, sides.right_gradient, sides.right_hessian, finder.lambda);
    assert(!crate::number::above(finder.entropy_weight, crate::number::small(0)));
}

/// Without regularization no split that divides a node loses anything, and one
/// whose sides want the same value gains nothing.
pub proof fn law_like_sides_gain_nothing<V: Number, F: Functions<V>>(
    worth: spec_fn(V) -> real,
    finder: &SplitFinder<V>,
    sides: Sides<V>,
    totals: NodeTotals<V>,
    functions: F,
    gain: V,
)
    requires
        crate::exact::exact(worth),
        finder.gains(sides, totals, functions, gain),
        worth(finder.entropy_weight) == 0real,
        worth(finder.lambda) == 0real,
        worth(sides.left_hessian) > 0real,
        worth(sides.right_hessian) > 0real,
        worth(totals.gradient) == worth(sides.left_gradient) + worth(sides.right_gradient),
        worth(totals.hessian) == worth(sides.left_hessian) + worth(sides.right_hessian),
    ensures
        worth(gain) >= 0real,
        worth(gain) == 0real <==> worth(
            weight(sides.left_gradient, sides.left_hessian, finder.lambda),
        ) == worth(weight(sides.right_gradient, sides.right_hessian, finder.lambda)),
{
    let a = worth(weight(sides.left_gradient, sides.left_hessian, finder.lambda));
    let b = worth(weight(sides.right_gradient, sides.right_hessian, finder.lambda));
    let c = worth(weight(totals.gradient, totals.hessian, finder.lambda));
    let (g1, h1) = (worth(sides.left_gradient), worth(sides.left_hessian));
    let (g2, h2) = (worth(sides.right_gradient), worth(sides.right_hessian));
    law_gain_is_loss_taken_away(worth, finder, sides, totals, functions, gain);
    lemma_least_loss(g1, h1, a, c);
    lemma_least_loss(g2, h2, b, c);
    assert((g1 + g2) * c == g1 * c + g2 * c) by (nonlinear_arith);
    assert((h1 + h2) * (c * c) == h1 * (c * c) + h2 * (c * c)) by (nonlinear_arith);
    if a == b {
        assert(g1 == 0real - h1 * a) by (nonlinear_arith)
            requires
                h1 > 0real,
                a == (0real - g1) / h1,
        ;
        assert(g2 == 0real - h2 * a) by (nonlinear_arith)
            requires
                h2 > 0real,
                a == (0real - g2) / h2,
        ;
        assert((0real - (g1 + g2)) / (h1 + h2) == a) by (nonlinear_arith)
            requires
                g1 == 0real - h1 * a,
                g2 == 0real - h2 * a,
                h1 + h2 > 0real,
        ;
    }
}

/// Entropy is added to what a split gains: of two splits that take away the same
/// loss, the one with the greater entropy gains more.
pub proof fn law_entropy_adds_to_gain<V: Number, F: Functions<V>>(
    worth: spec_fn(V) -> real,
    finder: &SplitFinder<V>,
    plain: &SplitFinder<V>,
    sides: Sides<V>,
    totals: NodeTotals<V>,
    functions: F,
    gain: V,
    plain_gain: V,
)
    requires
        crate::exact::exact(worth),
        finder.gains(sides, totals, functions, gain),
        plain.gains(sides, totals, functions, plain_gain),
        plain.lambda == finder.lambda,
        worth(plain.entropy_weight) == 0real,
        worth(finder.entropy_weight) >= 0real,
    ensures
        worth(gain) - worth(plain_gain) == worth(finder.entropy_weight) * worth(
            entropy_of(&functions, sides.left_count, sides.right_count, totals.count),
        ),
{
    let w = worth(finder.entropy_weight);
    let e = worth(entropy_of(&functions, sides.left_count, sides.right_count, totals.count));
    assert(!crate::number::above(plain.entropy_weight, crate::number::small(0)));
    if w == 0real {
        assert(!crate::number::above(finder.entropy_weight, crate::number::small(0)));
        assert(w * e == 0real) by (nonlinear_arith)
            requires
                w == 0real,
        ;
    }
}

/// What a split gains falls as the score of the node rises, and rises with the
/// scores of its sides, however the numbers are rounded.
pub proof fn law_gain_follows_scores<V: Number>(
    a: Sides<V>,
    b: Sides<V>,
    whole_a: NodeTotals<V>,
    whole_b: NodeTotals<V>,
    lambda: V,
)
    requires
        crate::number::monotone::<V>(),
        crate::number::antitone::<V>(),
        crate::number::upward(crate::number::small::<V>(2)),
        score(a.right_gradient, a.right_hessian, lambda) == score(
            b.right_gradient,
            b.right_hessian,
            lambda,
        ),
        !crate::number::above(
            score(a.left_gradient, a.left_hessian, lambda),
            score(b.left_gradient, b.left_hessian, lambda),
        ),
        whole_a == whole_b || (score(a.left_gradient, a.left_hessian, lambda) == score(
            b.left_gradient,
            b.left_hessian,
            lambda,
        ) && !crate::number::above(
            score(whole_b.gradient, whole_b.hessian, lambda),
            score(whole_a.gradient, whole_a.hessian, lambda),
        )),
    ensures
        !crate::number::above(plain_gain(a, whole_a, lambda), plain_gain(b, whole_b, lambda)),
{
}

/// The entropy of a split is the same with the sides exchanged.
pub proof fn law_entropy_is_symmetric<V: Number, F: Functions<V>>(
    worth: spec_fn(V) -> real,
    f: &F,
    left: u32,
    right: u32,
    total: u32,
)
    requires
        crate::exact::exact(worth),
        crate::exact::distinct::<V>(),
        crate::exact::counts(f, worth),
        left + right == total,
    ensures
        worth(entropy_of::<V, F>(f, left, right, total)) == worth(
            entropy_of::<V, F>(f, right, left, total),
        ),
{
    if total > 0 {
        let n = total as real;
        let p: V = crate::number::over(
            crate::functions::count_of::<V, F>(f, left as usize),
            crate::functions::count_of::<V, F>(f, total as usize),
        );
        let q: V = crate::number::over(
            crate::functions::count_of::<V, F>(f, right as usize),
            crate::functions::count_of::<V, F>(f, total as usize),
        );
        let one = crate::number::small::<V>(1);
        assert(left as real / n + right as real / n == 1real) by (nonlinear_arith)
            requires
                left as real + right as real == n,
                n > 0real,
        ;
        assert(crate::number::same(crate::number::minus(one, p), q));
        assert(crate::number::same(crate::number::minus(one, q), p));
    }
}

/// The entropy of two equal halves is one, and no side without rows has any.
pub proof fn law_entropy_of_halves<V: Number, F: Functions<V>>(
    worth: spec_fn(V) -> real,
    f: &F,
    half: u32,
    total: u32,
)
    requires
        crate::exact::exact(worth),
        crate::exact::distinct::<V>(),
        crate::exact::counts(f, worth),
        crate::exact::powers(f, worth),
        half > 0,
        total == 2 * half,
    ensures
        worth(entropy_of::<V, F>(f, half, half, total)) == 1real,
        worth(entropy_of::<V, F>(f, 0, total, total)) == 0real,
        worth(entropy_of::<V, F>(f, total, 0, total)) == 0real,
{
    let n = total as real;
    let one = crate::number::small::<V>(1);
    let two = crate::number::small::<V>(2);
    let p: V = crate::number::over(
        crate::functions::count_of::<V, F>(f, half as usize),
        crate::functions::count_of::<V, F>(f, total as usize),
    );
    assert(half as real / n == 1real / 2real) by (nonlinear_arith)
        requires
            n == 2real * (half as real),
            n > 0real,
    ;
    assert(crate::number::same(crate::number::minus(one, p), p));
    let w = worth(p);
    assert(w * 2real == 1real) by (nonlinear_arith)
        requires
            w == 1real / 2real,
    ;
    assert(crate::number::same(crate::number::times(p, two), one));
    crate::exact::lemma_ln_one(f, worth);
    let ln2 = worth(crate::functions::ln_of(f, two));
    let lg = worth(crate::functions::log2_of(f, p));
    assert(worth(crate::functions::ln_of(f, crate::number::times(p, two))) == 0real);
    assert(worth(crate::functions::ln_of(f, p)) == 0real - ln2);
    assert(ln2 > 0real) by {
        assert(worth(crate::functions::ln_of(f, one)) < worth(crate::functions::ln_of(f, two)));
    }
    assert(lg == 0real - 1real) by (nonlinear_arith)
        requires
            lg * ln2 == 0real - ln2,
            ln2 > 0real,
    ;
    assert(w * lg == 0real - w) by (nonlinear_arith)
        requires
            lg == 0real - 1real,
    ;
}

/// The sides after one bin more: its rows and sums move from the right to the
/// left. Nothing lies left of the first bin.
pub proof fn law_sides_move_bin_by_bin<V: Number>(
    worth: spec_fn(V) -> real,
    finder: &SplitFinder<V>,
    bins: Seq<BinEntry<V>>,
    totals: NodeTotals<V>,
    b: int,
)
    requires
        crate::exact::exact(worth),
        bins.len() == NUM_BINS,
        0 <= b < NUM_BINS,
        bins[b].count > 0,
    ensures
        ({
            let s = finder.sides_after(bins, totals, b);
            let before = finder.sides_after(bins, totals, b - 1);
            &&& worth(s.left_gradient) == worth(before.left_gradient) + worth(
                bins[b].sum_gradients,
            )
            &&& worth(s.left_hessian) == worth(before.left_hessian) + worth(bins[b].sum_hessians)
            &&& worth(s.left_gradient) + worth(s.right_gradient) == worth(totals.gradient)
            &&& worth(s.left_hessian) + worth(s.right_hessian) == worth(totals.hessian)
            &&& b == 0 ==> worth(before.left_gradient) == 0real && worth(before.left_hessian)
                == 0real
        }),
{
}

/// A bin without rows moves nothing.
pub proof fn law_empty_bins_move_nothing<V: Number>(
    finder: &SplitFinder<V>,
    bins: Seq<BinEntry<V>>,
    totals: NodeTotals<V>,
    b: int,
)
    requires
        0 <= b < bins.len(),
        bins[b].count == 0,
    ensures
        finder.sides_after(bins, totals, b) == finder.sides_after(bins, totals, b - 1),
{
}

/// A split after bin `b` of a feature may be taken: the bin has rows, both sides
/// have enough rows and hessians, and the values of the leaves respect the
/// constraint of the feature.
pub open spec fn may_be_taken<V: Number>(
    worth: spec_fn(V) -> real,
    finder: &SplitFinder<V>,
    bins: Seq<BinEntry<V>>,
    feature_idx: int,
    totals: NodeTotals<V>,
    b: int,
) -> bool {
    let s = finder.sides_after(bins, totals, b);
    let left = worth(weight(s.left_gradient, s.left_hessian, finder.lambda));
    let right = worth(weight(s.right_gradient, s.right_hessian, finder.lambda));
    &&& bins[b].count > 0
    &&& s.left_count >= finder.min_samples_leaf
    &&& s.right_count >= finder.min_samples_leaf
    &&& worth(s.left_hessian) >= worth(finder.min_hessian_leaf)
    &&& worth(s.right_hessian) >= worth(finder.min_hessian_leaf)
    &&& finder.constraint(feature_idx) is Increasing ==> left <= right
    &&& finder.constraint(feature_idx) is Decreasing ==> left >= right
}

proof fn lemma_feature_best<V: Number, F: Functions<V>>(
    worth: spec_fn(V) -> real,
    finder: &SplitFinder<V>,
    bins: Seq<BinEntry<V>>,
    feature_idx: usize,
    totals: NodeTotals<V>,
    functions: F,
    r: Option<SplitInfo<V>>,
    b: int,
    gain: V,
)
    requires
        crate::exact::exact(worth),
        finder.finds_for_feature(bins, feature_idx, totals, functions, r),
        finder.min_samples_leaf > 0,
        0 <= b < NUM_BINS,
        may_be_taken(worth, finder, bins, feature_idx as int, totals, b),
        finder.gains(finder.sides_after(bins, totals, b), totals, functions, gain),
    ensures
        match r {
            Some(split) => worth(gain) <= worth(split.gain),
            None => worth(gain) <= worth(crate::number::lowest::<V>()) || worth(gain) < worth(
                finder.min_gain,
            ),
        },
{
    let gains = choose|gains: Seq<V>|
        {
            &&& gains.len() == NUM_BINS
            &&& #[trigger] finder.gains_known(
                bins,
                feature_idx,
                totals,
                functions,
                gains,
                NUM_BINS as int,
            )
            &&& r == finder.verdict(
                feature_idx,
                finder.scan(bins, feature_idx, totals, gains, NUM_BINS as int).best,
            )
        };
    assert(finder.considered(bins, feature_idx, totals, b));
    assert(gains[b] == gain);
    law_best_split_is_best(finder, bins, feature_idx, totals, gains, NUM_BINS as int);
    law_best_split_is_considered(finder, bins, feature_idx, totals, gains, NUM_BINS as int);
    let best = finder.scan(bins, feature_idx, totals, gains, NUM_BINS as int).best;
    assert(!crate::number::above(gain, best.gain));
    if best != no_split::<V>(feature_idx) {
        let c = choose|c: int|
            {
                &&& 0 <= c < NUM_BINS
                &&& #[trigger] finder.considered(bins, feature_idx, totals, c)
                &&& best == split_with(
                    feature_idx,
                    c,
                    gains[c],
                    finder.sides_after(bins, totals, c),
                )
            };
        assert(best.left_count >= 1 && best.right_count >= 1);
    }
}

/// The split of a node is one that may be taken and gains enough, and no split
/// that may be taken, on any of the features, gains more.
pub proof fn law_found_split_is_best<V: Number, F: Functions<V>>(
    worth: spec_fn(V) -> real,
    finder: &SplitFinder<V>,
    histograms: Seq<Seq<BinEntry<V>>>,
    order: Seq<usize>,
    totals: NodeTotals<V>,
    functions: F,
    split: SplitInfo<V>,
)
    requires
        crate::exact::exact(worth),
        finder.finds(histograms, order, totals, functions, Some(split)),
        finder.min_samples_leaf > 0,
    ensures
        worth(split.gain) >= worth(finder.min_gain),
        order.contains(split.feature_idx),
        may_be_taken(
            worth,
            finder,
            histograms[split.feature_idx as int],
            split.feature_idx as int,
            totals,
            split.bin_threshold as int,
        ),
        finder.gains(
            finder.sides_after(
                histograms[split.feature_idx as int],
                totals,
                split.bin_threshold as int,
            ),
            totals,
            functions,
            split.gain,
        ),
        split == split_with(
            split.feature_idx,
            split.bin_threshold as int,
            split.gain,
            finder.sides_after(
                histograms[split.feature_idx as int],
                totals,
                split.bin_threshold as int,
            ),
        ),
        forall|i: int, b: int, gain: V|
            0 <= i < order.len() && 0 <= b < NUM_BINS && #[trigger] may_be_taken(
                worth,
                finder,
                histograms[order[i] as int],
                order[i] as int,
                totals,
                b,
            ) && #[trigger] finder.gains(
                finder.sides_after(histograms[order[i] as int], totals, b),
                totals,
                functions,
                gain,
            ) ==> worth(gain) <= worth(split.gain),
{
    lemma_found_on_feature(finder, histograms, order, totals, functions, split);
    let found = choose|found: Seq<Option<SplitInfo<V>>>|
        {
            &&& #[trigger] finder.found_on(histograms, order, totals, functions, found)
            &&& Some(split) == finder.decide(SplitFinder::<V>::pick(found))
        };
    law_pick_is_best(found);
    law_pick_is_found(found);
    let f = split.feature_idx;
    let bins = histograms[f as int];
    let gains = choose|gains: Seq<V>|
        {
            &&& gains.len() == NUM_BINS
            &&& #[trigger] finder.gains_known(bins, f, totals, functions, gains, NUM_BINS as int)
            &&& Some(split) == finder.verdict(
                f,
                finder.scan(bins, f, totals, gains, NUM_BINS as int).best,
            )
        };
    law_best_split_is_considered(finder, bins, f, totals, gains, NUM_BINS as int);
    let c = choose|c: int|
        {
            &&& 0 <= c < NUM_BINS
            &&& #[trigger] finder.considered(bins, f, totals, c)
            &&& split == split_with(f, c, gains[c], finder.sides_after(bins, totals, c))
        };
    assert(split.bin_threshold as int == c);
    assert(gains[c] == split.gain);
    assert forall|i: int, b: int, gain: V|
        0 <= i < order.len() && 0 <= b < NUM_BINS && #[trigger] may_be_taken(
            worth,
            finder,
            histograms[order[i] as int],
            order[i] as int,
            totals,
            b,
        ) && #[trigger] finder.gains(
            finder.sides_after(histograms[order[i] as int], totals, b),
            totals,
            functions,
            gain,
        ) implies worth(gain) <= worth(split.gain) by {
        assert(finder.finds_for_feature(
            histograms[order[i] as int],
            order[i],
            totals,
            functions,
            found[i],
        ));
        lemma_feature_best(
            worth,
            finder,
            histograms[order[i] as int],
            order[i],
            totals,
            functions,
            found[i],
            b,
            gain,
        );
    }
}

/// A node is left unsplit only if no split that may be taken gains enough.
pub proof fn law_unsplit_node_has_no_split<V: Number, F: Functions<V>>(
    worth: spec_fn(V) -> real,
    finder: &SplitFinder<V>,
    histograms: Seq<Seq<BinEntry<V>>>,
    order: Seq<usize>,
    totals: NodeTotals<V>,
    functions: F,
    i: int,
    b: int,
    gain: V,
)
    requires
        crate::exact::exact(worth),
        finder.finds(histograms, order, totals, functions, None),
        finder.min_samples_leaf > 0,
        0 <= i < order.len(),
        0 <= b < NUM_BINS,
        may_be_taken(
            worth,
            finder,
            histograms[order[i] as int],
            order[i] as int,
            totals,
            b,
        ),
        finder.gains(
            finder.sides_after(histograms[order[i] as int], totals, b),
            totals,
            functions,
            gain,
        ),
        worth(gain) > worth(crate::number::lowest::<V>()),
    ensures
        worth(gain) < worth(finder.min_gain),
{
    let found = choose|found: Seq<Option<SplitInfo<V>>>|
        {
            &&& #[trigger] finder.found_on(histograms, order, totals, functions, found)
            &&& None::<SplitInfo<V>> == finder.decide(SplitFinder::<V>::pick(found))
        };
    let best = SplitFinder::<V>::pick(found);
    law_pick_is_best(found);
    law_pick_is_found(found);
    assert(finder.finds_for_feature(
        histograms[order[i] as int],
        order[i],
        totals,
        functions,
        found[i],
    ));
    lemma_feature_best(
        worth,
        finder,
        histograms[order[i] as int],
        order[i],
        totals,
        functions,
        found[i],
        b,
        gain,
    );
    if best != no_split::<V>(0) {
        let k = choose|k: int| 0 <= k < found.len() && #[trigger] found[k] == Some(best);
        assert(finder.finds_for_feature(
            histograms[order[k] as int],
            order[k],
            totals,
            functions,
            found[k],
        ));
        assert(best.valid());
    }
}

/// The left side of a split has the sums of the rows with a bin up to its
/// threshold.
pub proof fn lemma_left_sums<V: Number>(
    worth: spec_fn(V) -> real,
    finder: &SplitFinder<V>,
    bins: Seq<BinEntry<V>>,
    totals: NodeTotals<V>,
    column: Seq<u8>,
    gradients: Seq<V>,
    hessians: Seq<V>,
    rows: Seq<usize>,
    b: int,
)
    requires
        crate::exact::exact(worth),
        crate::tree::histogram::counts_rows(bins, column, rows),
        crate::tree::histogram::sums_rows(worth, bins, column, gradients, hessians, rows),
        -1 <= b < NUM_BINS,
    ensures
        ({
            let left = crate::tree::histogram::rows_under(column, rows, b + 1);
            let s = finder.sides_after(bins, totals, b);
            &&& worth(s.left_gradient) == worth(crate::tree::histogram::row_sum(gradients, left))
            &&& worth(s.left_hessian) == worth(crate::tree::histogram::row_sum(hessians, left))
        }),
    decreases b + 1,
{
    crate::tree::histogram::lemma_rows_under(worth, gradients, column, rows, b);
    crate::tree::histogram::lemma_rows_under(worth, hessians, column, rows, b);
    if b >= 0 {
        lemma_left_sums(worth, finder, bins, totals, column, gradients, hessians, rows, b - 1);
        assert(bins[b].count == crate::tree::histogram::bin_count(column, rows, b));
        if bins[b].count > 0 {
            law_sides_move_bin_by_bin(worth, finder, bins, totals, b);
        } else {
            law_empty_bins_move_nothing(finder, bins, totals, b);
            crate::tree::histogram::lemma_empty_bin(worth, gradients, column, rows, b);
            crate::tree::histogram::lemma_empty_bin(worth, hessians, column, rows, b);
        }
    } else {
        assert(finder.scan(bins, 0, totals, Seq::empty(), 0).gradient == crate::number::small::<V>(
            0,
        ));
    }
}

/// The sums of a split that is found are those of the rows on either side of its
/// threshold, where the histogram and the totals are those of the rows.
pub proof fn law_split_sums_are_of_its_rows<V: Number, F: Functions<V>>(
    worth: spec_fn(V) -> real,
    finder: &SplitFinder<V>,
    bins: Seq<BinEntry<V>>,
    feature_idx: usize,
    totals: NodeTotals<V>,
    functions: F,
    split: SplitInfo<V>,
    column: Seq<u8>,
    gradients: Seq<V>,
    hessians: Seq<V>,
    rows: Seq<usize>,
)
    requires
        crate::exact::exact(worth),
        finder.finds_for_feature(bins, feature_idx, totals, functions, Some(split)),
        crate::tree::histogram::counts_rows(bins, column, rows),
        crate::tree::histogram::sums_rows(worth, bins, column, gradients, hessians, rows),
        worth(totals.gradient) == worth(crate::tree::histogram::row_sum(gradients, rows)),
        worth(totals.hessian) == worth(crate::tree::histogram::row_sum(hessians, rows)),
    ensures
        ({
            let left = rows.filter(|r: usize| column[r as int] <= split.bin_threshold);
            let right = rows.filter(|r: usize| !(column[r as int] <= split.bin_threshold));
            &&& worth(split.left_gradient) == worth(
                crate::tree::histogram::row_sum(gradients, left),
            )
            &&& worth(split.left_hessian) == worth(
                crate::tree::histogram::row_sum(hessians, left),
            )
            &&& worth(split.right_gradient) == worth(
                crate::tree::histogram::row_sum(gradients, right),
            )
            &&& worth(split.right_hessian) == worth(
                crate::tree::histogram::row_sum(hessians, right),
            )
        }),
{
    let gains = choose|gains: Seq<V>|
        {
            &&& gains.len() == NUM_BINS
            &&& #[trigger] finder.gains_known(
                bins,
                feature_idx,
                totals,
                functions,
                gains,
                NUM_BINS as int,
            )
            &&& Some(split) == finder.verdict(
                feature_idx,
                finder.scan(bins, feature_idx, totals, gains, NUM_BINS as int).best,
            )
        };
    law_best_split_is_considered(finder, bins, feature_idx, totals, gains, NUM_BINS as int);
    let b = choose|b: int|
        {
            &&& 0 <= b < NUM_BINS
            &&& #[trigger] finder.considered(bins, feature_idx, totals, b)
            &&& split == split_with(
                feature_idx,
                b,
                gains[b],
                finder.sides_after(bins, totals, b),
            )
        };
    lemma_left_sums(worth, finder, bins, totals, column, gradients, hessians, rows, b);
    let p = |r: usize| column[r as int] <= split.bin_threshold;
    let q = |r: usize| !(column[r as int] <= split.bin_threshold);
    let under = |r: usize| column[r as int] < b + 1;
    assert(split.bin_threshold == b);
    assert(p =~= under);
    crate::tree::histogram::lemma_sums_divided(worth, gradients, column, rows, p, q, 0);
    crate::tree::histogram::lemma_sums_divided(worth, hessians, column, rows, p, q, 0);
}

} // verus!
