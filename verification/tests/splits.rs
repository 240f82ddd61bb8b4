use tdigest::TDigest;
use treeboost::functions::Functions;
use treeboost::tree::constraints::InteractionConstraints;
use treeboost::tree::histogram::{Histogram, NodeHistograms};
use treeboost::tree::mask::{generate_feature_mask, keep_first};
use treeboost::tree::split::{MonotonicConstraint, Sides, SplitFinder, SplitInfo};
use treeboost::tree::vector_histogram::{VectorHistogram, VectorNodeHistograms};
use treeboost::tree::vector_split::{VectorSplitFinder, VectorSplitInfo};

/// The functions of the numbers of type `f32`.
struct Floats;

impl Functions<f32> for Floats {
    fn count(&self, n: usize) -> f32 {
        n as f32
    }
    fn whole(&self, v: f32) -> usize {
        v as usize
    }
    fn round(&self, v: f32) -> f32 {
        v.round()
    }
    fn ceil(&self, v: f32) -> f32 {
        v.ceil()
    }
    fn root(&self, v: f32) -> f32 {
        v.sqrt()
    }
    fn ln(&self, v: f32) -> f32 {
        v.ln()
    }
    fn log2(&self, v: f32) -> f32 {
        v.log2()
    }
    fn exp(&self, v: f32) -> f32 {
        v.exp()
    }
    fn pow(&self, base: f32, exponent: f32) -> f32 {
        base.powf(exponent)
    }
    fn powi(&self, base: f32, exponent: i32) -> f32 {
        base.powi(exponent)
    }
    fn hundredths(&self, v: f32) -> i64 {
        (v * 100.0).round() as i64
    }
    fn quartiles(&self, list: &[f32]) -> (f32, f32, f32) {
        let mut digest = TDigest::new_with_size(100);
        for v in list {
            digest = digest.merge_unsorted(vec![*v as f64]);
        }
        (
            digest.estimate_quantile(0.25) as f32,
            digest.estimate_quantile(0.50) as f32,
            digest.estimate_quantile(0.75) as f32,
        )
    }
    fn show(&self, v: f32) -> String {
        format!("{}", v)
    }
    fn fixed(&self, v: f32, digits: usize) -> String {
        format!("{:.1$}", v, digits)
    }
    fn largest(&self) -> f32 {
        f32::MAX
    }
}

#[test]
fn test_split_finder_basic() {
    let mut histogram = Histogram::<f32>::new();

    // Create a clear split: bins 0-127 have negative gradients, 128-255 have positive
    for bin in 0..128 {
        histogram.accumulate(bin, -1.0, 1.0);
    }
    for bin in 128..=255 {
        histogram.accumulate(bin, 1.0, 1.0);
    }

    let mut histograms = NodeHistograms::<f32>::new(1);
    *histograms.get_mut(0) = histogram;

    let finder = SplitFinder::<f32>::new().with_lambda(0.0);
    let split = finder
        .find_best_split(&histograms, 0.0, 256.0, 256, &Floats)
        .unwrap();

    // Best split should be around bin 127
    assert_eq!(split.feature_idx, 0);
    assert_eq!(split.bin_threshold, 127);
    assert!(split.gain > 0.0);
}

#[test]
fn test_entropy_regularization() {
    let mut histogram = Histogram::<f32>::new();

    // Imbalanced split: most samples on one side
    for _ in 0..10 {
        histogram.accumulate(0, -0.5, 1.0);
    }
    for _ in 0..90 {
        histogram.accumulate(255, 0.5, 1.0);
    }

    let mut histograms = NodeHistograms::<f32>::new(1);
    *histograms.get_mut(0) = histogram;

    // Without entropy regularization
    let finder_no_entropy = SplitFinder::<f32>::new().with_lambda(0.0);
    let split_no_entropy = finder_no_entropy
        .find_best_split(&histograms, 40.0, 100.0, 100, &Floats);

    // With entropy regularization (penalizes imbalanced splits)
    let finder_entropy = SplitFinder::<f32>::new()
        .with_lambda(0.0)
        .with_entropy_weight(10.0);
    let split_entropy = finder_entropy
        .find_best_split(&histograms, 40.0, 100.0, 100, &Floats);

    // Both should find splits, but gains differ
    assert!(split_no_entropy.is_some());
    assert!(split_entropy.is_some());
}

#[test]
fn test_split_entropy() {
    let finder = SplitFinder::<f32>::new();

    // Balanced split: maximum entropy
    let balanced = finder.split_entropy(50, 50, 100, &Floats);
    assert!((balanced - 1.0).abs() < 0.001);

    // Imbalanced split: lower entropy
    let imbalanced = finder.split_entropy(10, 90, 100, &Floats);
    assert!(imbalanced < 0.5);

    // Edge cases
    assert_eq!(finder.split_entropy(0, 100, 100, &Floats), 0.0);
    assert_eq!(finder.split_entropy(100, 0, 100, &Floats), 0.0);
}

#[test]
fn test_min_samples_constraint() {
    let mut histogram = Histogram::<f32>::new();

    histogram.accumulate(0, -1.0, 1.0); // 1 sample
    for _ in 0..99 {
        histogram.accumulate(255, 1.0, 1.0); // 99 samples
    }

    let mut histograms = NodeHistograms::<f32>::new(1);
    *histograms.get_mut(0) = histogram;

    let finder = SplitFinder::<f32>::new()
        .with_min_samples_leaf(5); // Require at least 5 samples

    let split = finder.find_best_split(&histograms, 98.0, 100.0, 100, &Floats);

    // Should not find split because left would only have 1 sample
    assert!(split.is_none());
}

#[test]
fn test_monotonic_increasing_constraint() {
    let mut histogram = Histogram::<f32>::new();

    // Setup: bins 0-127 have negative gradient (positive weight),
    // bins 128-255 have positive gradient (negative weight)
    // weight = -gradient / hessian, so:
    // left: weight = -(-128) / 128 = +1.0
    // right: weight = -(+128) / 128 = -1.0
    // left_weight > right_weight => VIOLATES Increasing constraint
    for bin in 0..128 {
        histogram.accumulate(bin, -1.0, 1.0); // negative gradient = positive weight
    }
    for bin in 128..=255 {
        histogram.accumulate(bin, 1.0, 1.0); // positive gradient = negative weight
    }

    let mut histograms = NodeHistograms::<f32>::new(1);
    *histograms.get_mut(0) = histogram;

    // Without constraint: should find split
    let finder_no_constraint = SplitFinder::<f32>::new().with_lambda(0.0);
    let split = finder_no_constraint.find_best_split(&histograms, 0.0, 256.0, 256, &Floats);
    assert!(split.is_some());

    // With increasing constraint: should NOT find split
    // left_weight=+1.0 > right_weight=-1.0 => violates Increasing requirement
    let finder_increasing = SplitFinder::<f32>::new()
        .with_lambda(0.0)
        .with_monotonic_constraints(vec![MonotonicConstraint::Increasing]);
    let split = finder_increasing.find_best_split(&histograms, 0.0, 256.0, 256, &Floats);
    // The split violates monotonicity, should be rejected
    assert!(split.is_none());
}

#[test]
fn test_monotonic_decreasing_constraint() {
    let mut histogram = Histogram::<f32>::new();

    // Setup for decreasing: left should have higher weight than right
    // negative gradient = positive weight, positive gradient = negative weight
    for bin in 0..128 {
        histogram.accumulate(bin, -1.0, 1.0); // negative gradient = positive weight
    }
    for bin in 128..=255 {
        histogram.accumulate(bin, 1.0, 1.0); // positive gradient = negative weight
    }

    let mut histograms = NodeHistograms::<f32>::new(1);
    *histograms.get_mut(0) = histogram;

    // With decreasing constraint: should find split
    // left has positive weight, right has negative weight => left >= right (satisfied)
    let finder_decreasing = SplitFinder::<f32>::new()
        .with_lambda(0.0)
        .with_monotonic_constraints(vec![MonotonicConstraint::Decreasing]);
    let split = finder_decreasing.find_best_split(&histograms, 0.0, 256.0, 256, &Floats);
    assert!(split.is_some());

    // With increasing constraint: should NOT find split
    let finder_increasing = SplitFinder::<f32>::new()
        .with_lambda(0.0)
        .with_monotonic_constraints(vec![MonotonicConstraint::Increasing]);
    let split = finder_increasing.find_best_split(&histograms, 0.0, 256.0, 256, &Floats);
    assert!(split.is_none());
}

#[test]
fn test_monotonic_constraint_allows_valid_split() {
    let mut histogram = Histogram::<f32>::new();

    // Setup for valid increasing: left has lower weight than right
    for bin in 0..128 {
        histogram.accumulate(bin, -1.0, 1.0); // negative gradient = positive weight
    }
    for bin in 128..=255 {
        histogram.accumulate(bin, -2.0, 1.0); // more negative gradient = more positive weight
    }

    let mut histograms = NodeHistograms::<f32>::new(1);
    *histograms.get_mut(0) = histogram;

    // left_weight = -(-128) / 128 = 1.0
    // right_weight = -(-256) / 128 = 2.0
    // left_weight < right_weight => increasing is satisfied
    let finder = SplitFinder::<f32>::new()
        .with_lambda(0.0)
        .with_monotonic_constraints(vec![MonotonicConstraint::Increasing]);
    let split = finder.find_best_split(&histograms, -384.0, 256.0, 256, &Floats);
    assert!(split.is_some());
}

#[test]
fn test_interaction_constraints_empty() {
    let constraints = InteractionConstraints::new();
    assert!(constraints.is_empty());

    // All features should be allowed
    let allowed = constraints.allowed_features(&[], 5);
    assert_eq!(allowed, vec![0, 1, 2, 3, 4]);

    // Even with ancestors, all features allowed
    let allowed = constraints.allowed_features(&[0, 2], 5);
    assert_eq!(allowed, vec![0, 1, 2, 3, 4]);
}

#[test]
fn test_interaction_constraints_basic() {
    // Group 0: features 0, 1
    // Group 1: features 2, 3
    // Feature 4: unconstrained
    let constraints = InteractionConstraints::from_groups(
        vec![vec![0, 1], vec![2, 3]],
        5,
    );

    // No ancestors: all features allowed
    let allowed = constraints.allowed_features(&[], 5);
    assert_eq!(allowed, vec![0, 1, 2, 3, 4]);

    // After using feature 0 (group 0): only group 0 and unconstrained allowed
    let allowed = constraints.allowed_features(&[0], 5);
    assert_eq!(allowed, vec![0, 1, 4]); // 0, 1 (group 0) and 4 (unconstrained)

    // After using feature 2 (group 1): only group 1 and unconstrained allowed
    let allowed = constraints.allowed_features(&[2], 5);
    assert_eq!(allowed, vec![2, 3, 4]); // 2, 3 (group 1) and 4 (unconstrained)
}

#[test]
fn test_interaction_constraints_unconstrained_always_allowed() {
    // Only constrain some features
    let constraints = InteractionConstraints::from_groups(
        vec![vec![0, 1]],
        5, // Features 2, 3, 4 are unconstrained
    );

    // After using constrained feature, unconstrained still allowed
    let allowed = constraints.allowed_features(&[0], 5);
    assert!(allowed.contains(&2)); // unconstrained
    assert!(allowed.contains(&3)); // unconstrained
    assert!(allowed.contains(&4)); // unconstrained
    assert!(allowed.contains(&0)); // same group
    assert!(allowed.contains(&1)); // same group
    assert_eq!(allowed.len(), 5); // All allowed since 2,3,4 are unconstrained
}

#[test]
fn test_vector_split_info_new() {
    let info = VectorSplitInfo::<f32, f64>::new(3);
    assert_eq!(info.num_outputs(), 3);
    assert!(!info.is_valid());
    assert_eq!(info.left_stats.len(), 6);
    assert_eq!(info.right_stats.len(), 6);
}

#[test]
fn test_vector_split_finder_new() {
    let finder = VectorSplitFinder::<f32>::new(2)
        .with_lambda(0.5)
        .with_min_samples_leaf(10)
        .with_min_hessian_leaf(1.0)
        .with_min_gain(0.1);

    assert_eq!(finder.num_outputs(), 2);
    assert_eq!(finder.lambda, 0.5);
    assert_eq!(finder.min_samples_leaf, 10);
    assert_eq!(finder.min_hessian_leaf, 1.0);
    assert_eq!(finder.min_gain, 0.1);
}

#[test]
fn test_simple_split() {
    let num_outputs = 1;
    let mut hist = VectorHistogram::<f32>::new(num_outputs);

    // Put 5 samples in bin 0 with positive gradient
    for _ in 0..5 {
        hist.accumulate(0, &[1.0], &[1.0]);
    }

    // Put 5 samples in bin 128 with negative gradient
    for _ in 0..5 {
        hist.accumulate(128, &[-1.0], &[1.0]);
    }

    let finder = VectorSplitFinder::<f32>::new(num_outputs).with_lambda(1.0);

    let split: VectorSplitInfo<f32, f64> = finder.find_best_split(&hist, 0);

    assert!(split.is_valid());
    assert_eq!(split.bin_threshold, 0);
    assert_eq!(split.left_count, 5);
    assert_eq!(split.right_count, 5);
}

fn two_bins(left: (u8, f32), right: (u8, f32)) -> Histogram<f32> {
    let mut histogram = Histogram::<f32>::new();
    for _ in 0..4 {
        histogram.accumulate(left.0, left.1, 1.0);
        histogram.accumulate(right.0, right.1, 1.0);
    }
    histogram
}

#[test]
fn split_has_exact_gain_and_sides() {
    let mut histograms = NodeHistograms::<f32>::new(1);
    *histograms.get_mut(0) = two_bins((3, -1.0), (9, 1.0));
    let finder = SplitFinder::<f32>::new().with_lambda(0.0);
    let split = finder
        .find_best_split(&histograms, 0.0, 8.0, 8, &Floats)
        .unwrap();
    // (16 / 4 + 16 / 4 - 0) / 2
    assert_eq!(split.gain, 4.0);
    assert_eq!(split.bin_threshold, 3);
    assert_eq!((split.left_count, split.right_count), (4, 4));
    assert_eq!((split.left_gradient, split.right_gradient), (-4.0, 4.0));
    assert_eq!((split.left_hessian, split.right_hessian), (4.0, 4.0));

    let weighed = finder.with_entropy_weight(0.5);
    let split = weighed
        .find_best_split(&histograms, 0.0, 8.0, 8, &Floats)
        .unwrap();
    assert_eq!(split.gain, 4.5);
}

#[test]
fn mask_limits_the_features_and_the_best_one_wins() {
    let mut histograms = NodeHistograms::<f32>::new(2);
    *histograms.get_mut(0) = two_bins((0, -0.5), (1, 0.5));
    *histograms.get_mut(1) = two_bins((0, -1.0), (1, 1.0));
    let finder = SplitFinder::<f32>::new();
    let all = finder.find_best_split(&histograms, 0.0, 8.0, 8, &Floats);
    assert_eq!(all.unwrap().feature_idx, 1);
    let first = finder.find_best_split_with_features(
        &histograms,
        0.0,
        8.0,
        8,
        Some(&[0, 7]),
        &Floats,
    );
    assert_eq!(first.unwrap().feature_idx, 0);
    let strict = SplitFinder::<f32>::new().with_min_gain(1000.0);
    assert!(strict
        .find_best_split(&histograms, 0.0, 8.0, 8, &Floats)
        .is_none());
}

#[test]
fn no_split_is_not_valid() {
    let none = SplitInfo::<f32>::none(3);
    assert!(!none.is_valid());
    assert_eq!(none.feature_idx, 3);
}

#[test]
fn constraints_compare_leaf_values() {
    let sides = Sides::<f32> {
        left_gradient: -1.0,
        left_hessian: 1.0,
        left_count: 1,
        right_gradient: 1.0,
        right_hessian: 1.0,
        right_count: 1,
    };
    let finder = SplitFinder::<f32>::new().with_monotonic_constraints(vec![
        MonotonicConstraint::Increasing,
        MonotonicConstraint::Decreasing,
        MonotonicConstraint::Unconstrained,
    ]);
    assert!(!finder.satisfies_monotonic_constraint(0, sides));
    assert!(finder.satisfies_monotonic_constraint(1, sides));
    assert!(finder.satisfies_monotonic_constraint(2, sides));
    assert!(finder.satisfies_monotonic_constraint(9, sides));
    assert!(!finder.can_use_simd(0));
    assert!(finder.can_use_simd(2));
    assert_eq!(
        MonotonicConstraint::from_code(-1),
        Some(MonotonicConstraint::Decreasing)
    );
    assert_eq!(MonotonicConstraint::from_code(2), None);
}

#[test]
fn sibling_histogram_is_the_difference() {
    let column: Vec<u8> = vec![0, 0, 5, 5];
    let gradients: Vec<f32> = vec![1.0, 2.0, 3.0, 4.0];
    let hessians: Vec<f32> = vec![1.0; 4];
    let parent = Histogram::build(&column, &gradients, &hessians, &[0, 1, 2, 3]);
    let child = Histogram::build(&column, &gradients, &hessians, &[1, 2]);
    let sibling = Histogram::build_sibling(&parent, &child);
    assert_eq!(sibling.bins()[0].sum_gradients, 1.0);
    assert_eq!(sibling.bins()[5].sum_gradients, 4.0);
    assert_eq!(sibling.bins()[5].count, 1);
    assert_eq!(sibling.bins()[7].count, 0);
}

#[test]
fn feature_mask_is_a_choice_that_the_seed_decides() {
    assert!(generate_feature_mask(10, 1.0f32, 42, &Floats).is_none());
    let mask = generate_feature_mask(10, 0.45f32, 42, &Floats).unwrap();
    assert_eq!(mask.len(), 5);
    let mut sorted = mask.clone();
    sorted.sort();
    sorted.dedup();
    assert_eq!(sorted.len(), 5);
    assert!(sorted.iter().all(|f| *f < 10));
    assert_eq!(
        generate_feature_mask(10, 0.45f32, 42, &Floats).unwrap(),
        mask
    );
    // a shuffle that left the list as it is would give the first features
    let tries: Vec<Vec<usize>> = (0..8)
        .map(|seed| generate_feature_mask(10, 0.45f32, seed, &Floats).unwrap())
        .collect();
    assert!(tries.iter().any(|m| *m != vec![0, 1, 2, 3, 4]));
    assert_eq!(generate_feature_mask(10, 0.0f32, 1, &Floats).unwrap().len(), 1);
    assert!(generate_feature_mask(0, 0.5f32, 1, &Floats)
        .unwrap()
        .is_empty());
    assert_eq!(keep_first(vec![4, 2, 9], 2), vec![4, 2]);
    assert_eq!(keep_first(vec![4, 2, 9], 0), vec![4]);
}

#[test]
fn interaction_groups_exclude_each_other() {
    let constraints = InteractionConstraints::from_groups(vec![vec![0, 1], vec![2, 3]], 5);
    assert_eq!(constraints.groups().len(), 2);
    assert_eq!(constraints.allowed_features(&[0, 2], 5), vec![0, 1, 2, 3, 4]);
    assert_eq!(constraints.allowed_features(&[4], 5), vec![0, 1, 2, 3, 4]);
    assert!(InteractionConstraints::default().is_empty());
}

#[test]
fn vector_split_has_exact_gain() {
    let mut hist = VectorHistogram::<f32>::new(2);
    for _ in 0..4 {
        hist.accumulate(2, &[1.0, 2.0], &[1.0, 1.0]);
        hist.accumulate(6, &[-1.0, -2.0], &[1.0, 1.0]);
    }
    assert_eq!(hist.get_count(2), 4);
    assert_eq!(hist.total_count(), 8);
    assert_eq!(hist.get_output_stats(6, 1), (-8.0, 4.0));
    let finder = VectorSplitFinder::<f32>::new(2).with_lambda(0.0);
    let split: VectorSplitInfo<f32, f64> = finder.find_best_split(&hist, 7);
    assert!(split.is_valid());
    assert_eq!(split.feature_idx, 7);
    assert_eq!(split.bin_threshold, 2);
    assert_eq!(split.left_gradients(), vec![4.0, 8.0]);
    assert_eq!(split.right_gradients(), vec![-4.0, -8.0]);
    assert_eq!(split.left_hessians(), vec![4.0, 4.0]);
    assert_eq!(split.left_stats(1), (8.0, 4.0));

    let all = VectorNodeHistograms::from_histograms(2, vec![VectorHistogram::new(2), hist]);
    let best: VectorSplitInfo<f32, f64> = finder.find_best_split_all_features(&all);
    assert_eq!(best.feature_idx, 1);
    let barred: VectorSplitInfo<f32, f64> = finder.find_best_split_features(&all, &[0, 5]);
    assert!(!barred.is_valid());
}

#[test]
fn vector_split_stats_can_be_set() {
    let mut info = VectorSplitInfo::<f32, f64>::single();
    assert_eq!(info.num_outputs(), 1);
    info.set_left_stats(0, 3.0, 4.0);
    info.set_right_stats(0, 5.0, 6.0);
    assert_eq!(info.left_stats(0), (3.0, 4.0));
    assert_eq!(info.right_stats(0), (5.0, 6.0));
    assert_eq!(info.left_stats_buffer(), &[3.0, 4.0]);
    assert_eq!(info.right_stats_buffer(), &[5.0, 6.0]);
}

#[test]
fn clones_and_defaults_hold_the_same() {
    let constraints = InteractionConstraints::from_groups(vec![vec![0, 1], vec![2]], 4);
    let copy = constraints.clone();
    assert_eq!(
        copy.allowed_features(&[0], 4),
        constraints.allowed_features(&[0], 4)
    );
    let finder = SplitFinder::<f32>::default();
    let mut histograms = NodeHistograms::<f32>::new(1);
    *histograms.get_mut(0) = two_bins((3, -1.0), (9, 1.0));
    let split = finder
        .find_best_split(&histograms, 0.0, 8.0, 8, &Floats)
        .unwrap();
    // (16 / 5 + 16 / 5 - 0) / 2
    assert!((split.gain - 3.2).abs() < 1e-6);
}
