use tdigest::TDigest;
use treeboost::error::TreeBoostError;
use treeboost::functions::Functions;
use treeboost::preprocessing::imputer::{
    compute_median, compute_mode, keep_present, sort_numbers, ImputeStrategy, IndicatorImputer,
    SimpleImputer,
};
use treeboost::preprocessing::incremental::WelfordState;
use treeboost::preprocessing::scaler::{MinMaxScaler, RobustScaler, Scaler, StandardScaler};

/// The functions of the numbers of type `f32`.
struct Floats;

impl Functions<f32> for Floats {
    fn count(&self, n: usize) -> f32 {
        n as f32
    }
    fn whole(&self, v: f32) -> usize {
        v as usize
    }
    fn round(&self, v: f32) -> f32 {
        v.round()
    }
    fn ceil(&self, v: f32) -> f32 {
        v.ceil()
    }
    fn root(&self, v: f32) -> f32 {
        v.sqrt()
    }
    fn ln(&self, v: f32) -> f32 {
        v.ln()
    }
    fn log2(&self, v: f32) -> f32 {
        v.log2()
    }
    fn exp(&self, v: f32) -> f32 {
        v.exp()
    }
    fn pow(&self, base: f32, exponent: f32) -> f32 {
        base.powf(exponent)
    }
    fn powi(&self, base: f32, exponent: i32) -> f32 {
        base.powi(exponent)
    }
    fn hundredths(&self, v: f32) -> i64 {
        (v * 100.0).round() as i64
    }
    fn quartiles(&self, list: &[f32]) -> (f32, f32, f32) {
        let mut digest = TDigest::new_with_size(100);
        for v in list {
            digest = digest.merge_unsorted(vec![*v as f64]);
        }
        (
            digest.estimate_quantile(0.25) as f32,
            digest.estimate_quantile(0.50) as f32,
            digest.estimate_quantile(0.75) as f32,
        )
    }
    fn show(&self, v: f32) -> String {
        format!("{}", v)
    }
    fn fixed(&self, v: f32, digits: usize) -> String {
        format!("{:.1$}", v, digits)
    }
    fn largest(&self) -> f32 {
        f32::MAX
    }
}

impl Functions<f64> for Floats {
    fn count(&self, n: usize) -> f64 {
        n as f64
    }
    fn whole(&self, v: f64) -> usize {
        v as usize
    }
    fn round(&self, v: f64) -> f64 {
        v.round()
    }
    fn ceil(&self, v: f64) -> f64 {
        v.ceil()
    }
    fn root(&self, v: f64) -> f64 {
        v.sqrt()
    }
    fn ln(&self, v: f64) -> f64 {
        v.ln()
    }
    fn log2(&self, v: f64) -> f64 {
        v.log2()
    }
    fn exp(&self, v: f64) -> f64 {
        v.exp()
    }
    fn pow(&self, base: f64, exponent: f64) -> f64 {
        base.powf(exponent)
    }
    fn powi(&self, base: f64, exponent: i32) -> f64 {
        base.powi(exponent)
    }
    fn hundredths(&self, v: f64) -> i64 {
        (v * 100.0).round() as i64
    }
    fn quartiles(&self, list: &[f64]) -> (f64, f64, f64) {
        let mut digest = TDigest::new_with_size(100);
        for v in list {
            digest = digest.merge_unsorted(vec![*v]);
        }
        (
            digest.estimate_quantile(0.25),
            digest.estimate_quantile(0.50),
            digest.estimate_quantile(0.75),
        )
    }
    fn show(&self, v: f64) -> String {
        format!("{}", v)
    }
    fn fixed(&self, v: f64, digits: usize) -> String {
        format!("{:.1$}", v, digits)
    }
    fn largest(&self) -> f64 {
        f64::MAX
    }
}

#[test]
fn test_standard_scaler_basic() {
    let mut data = vec![1.0, 2.0, 3.0, 4.0, 5.0, 6.0];
    // 2 rows × 3 features
    // Row 0: [1.0, 2.0, 3.0]
    // Row 1: [4.0, 5.0, 6.0]
    let num_features = 3;

    let mut scaler = StandardScaler::<f32>::new();
    assert!(!scaler.is_fitted());

    scaler.fit(&data, num_features, &Floats).unwrap();
    assert!(scaler.is_fitted());

    // Check means (column averages)
    // Feature 0: (1.0 + 4.0) / 2 = 2.5
    // Feature 1: (2.0 + 5.0) / 2 = 3.5
    // Feature 2: (3.0 + 6.0) / 2 = 4.5
    assert_eq!(scaler.means(), &[2.5, 3.5, 4.5]);

    scaler.transform(&mut data, num_features).unwrap();

    // After standardization, mean should be ~0, std should be ~1
}

#[test]
fn test_standard_scaler_zero_variance() {
    let mut data = vec![5.0, 1.0, 2.0, 5.0, 3.0, 4.0];
    // 2 rows × 3 features
    // Row 0: [5.0, 1.0, 2.0]
    // Row 1: [5.0, 3.0, 4.0]
    // Feature 0 is constant: [5.0, 5.0]
    let num_features = 3;

    let mut scaler = StandardScaler::<f32>::new();
    scaler.fit(&data, num_features, &Floats).unwrap();

    // Zero-variance feature should have std = 1.0 (fallback)
    assert_eq!(scaler.stds[0], 1.0);
    assert_eq!(scaler.means[0], 5.0);

    // Transform should not panic
    scaler.transform(&mut data, num_features).unwrap();
}

#[test]
fn test_minmax_scaler_basic() {
    let mut data = vec![1.0, 10.0, 2.0, 20.0, 3.0, 30.0]; // 3 rows × 2 features
    let num_features = 2;

    let mut scaler = MinMaxScaler::<f32>::new();
    scaler.fit(&data, num_features, &Floats).unwrap();

    assert_eq!(scaler.mins, vec![1.0, 10.0]);
    assert_eq!(scaler.maxs, vec![3.0, 30.0]);

    scaler.transform(&mut data, num_features).unwrap();

    // First feature: [1, 2, 3] → [0.0, 0.5, 1.0]
    assert!((data[0] - 0.0).abs() < 1e-6);
    assert!((data[2] - 0.5).abs() < 1e-6);
    assert!((data[4] - 1.0).abs() < 1e-6);

    // Second feature: [10, 20, 30] → [0.0, 0.5, 1.0]
    assert!((data[1] - 0.0).abs() < 1e-6);
    assert!((data[3] - 0.5).abs() < 1e-6);
    assert!((data[5] - 1.0).abs() < 1e-6);
}

#[test]
fn test_minmax_scaler_custom_range() {
    let mut data = vec![1.0, 2.0, 3.0]; // 3 rows × 1 feature
    let num_features = 1;

    let mut scaler = MinMaxScaler::<f32>::new().with_range(-1.0, 1.0);
    scaler.fit(&data, num_features, &Floats).unwrap();
    scaler.transform(&mut data, num_features).unwrap();

    // [1, 2, 3] → [-1.0, 0.0, 1.0]
    assert!((data[0] - (-1.0)).abs() < 1e-6);
    assert!((data[1] - 0.0).abs() < 1e-6);
    assert!((data[2] - 1.0).abs() < 1e-6);
}

#[test]
fn test_robust_scaler_basic() {
    let mut data = vec![1.0, 2.0, 3.0, 100.0]; // 2 rows × 2 features (outlier: 100)
    let num_features = 2;

    let mut scaler = RobustScaler::<f32>::new();
    scaler.fit(&data, num_features, &Floats).unwrap();

    // Medians: [2.0, 51.0] (avg of middle two values)
    assert!((scaler.medians[0] - 2.0).abs() < 1e-6);

    scaler.transform(&mut data, num_features).unwrap();

    // Check that outlier doesn't dominate (median-based scaling)
}

#[test]
fn test_scaler_not_fitted_error() {
    let mut data = vec![1.0, 2.0, 3.0];
    let scaler = StandardScaler::<f32>::new();

    let result = scaler.transform(&mut data, 1);
    assert!(result.is_err());
    assert!(result.unwrap_err().message().contains("not fitted"));
}

#[test]
fn test_scaler_feature_mismatch_error() {
    let data = vec![1.0, 2.0, 3.0, 4.0];
    let mut scaler = StandardScaler::<f32>::new();

    scaler.fit(&data, 2, &Floats).unwrap(); // Fit with 2 features

    let mut test_data = vec![5.0, 6.0, 7.0];
    let result = scaler.transform(&mut test_data, 3); // Try to transform with 3 features

    assert!(result.is_err());
    assert!(result.unwrap_err().message().contains("mismatch"));
}

#[test]
fn test_simple_imputer_mean() {
    let mut imputer = SimpleImputer::<f32>::mean();

    // 3 rows × 2 features, with NaN values
    let mut data = vec![1.0, 2.0, f32::NAN, 4.0, 3.0, f32::NAN];

    imputer.fit(&data, 2, &Floats).unwrap();
    assert!(imputer.is_fitted());

    // Mean of col 0: (1 + 3) / 2 = 2.0
    // Mean of col 1: (2 + 4) / 2 = 3.0
    assert!((imputer.fill_values()[0] - 2.0).abs() < 0.01);
    assert!((imputer.fill_values()[1] - 3.0).abs() < 0.01);

    imputer.transform(&mut data, 2).unwrap();

    // Check NaN values are replaced
    assert!((data[2] - 2.0).abs() < 0.01); // row 1, col 0
    assert!((data[5] - 3.0).abs() < 0.01); // row 2, col 1
}

#[test]
fn test_simple_imputer_median() {
    let mut imputer = SimpleImputer::<f32>::median();

    // 4 rows × 1 feature
    let mut data = vec![1.0, 3.0, f32::NAN, 5.0];

    imputer.fit(&data, 1, &Floats).unwrap();

    // Median of [1, 3, 5] = 3.0
    assert!((imputer.fill_values()[0] - 3.0).abs() < 0.01);

    imputer.transform(&mut data, 1).unwrap();
    assert!((data[2] - 3.0).abs() < 0.01);
}

#[test]
fn test_simple_imputer_mode() {
    let mut imputer = SimpleImputer::<f32>::mode();

    // 5 rows × 1 feature (mode should be 2.0)
    let mut data = vec![1.0, 2.0, 2.0, f32::NAN, 3.0];

    imputer.fit(&data, 1, &Floats).unwrap();

    // Mode of [1, 2, 2, 3] = 2.0
    assert!((imputer.fill_values()[0] - 2.0).abs() < 0.01);

    imputer.transform(&mut data, 1).unwrap();
    assert!((data[3] - 2.0).abs() < 0.01);
}

#[test]
fn test_simple_imputer_constant() {
    let mut imputer = SimpleImputer::<f32>::constant(-999.0);

    let mut data = vec![1.0, f32::NAN, 3.0];

    imputer.fit(&data, 1, &Floats).unwrap();
    assert!((imputer.fill_values()[0] - (-999.0)).abs() < 0.01);

    imputer.transform(&mut data, 1).unwrap();
    assert!((data[1] - (-999.0)).abs() < 0.01);
}

#[test]
fn test_simple_imputer_fit_transform() {
    let mut imputer = SimpleImputer::<f32>::mean();
    let mut data = vec![1.0, f32::NAN, 3.0];

    imputer.fit_transform(&mut data, 1, &Floats).unwrap();

    assert!(imputer.is_fitted());
    assert!((data[1] - 2.0).abs() < 0.01); // Mean of [1, 3] = 2
}

#[test]
fn test_simple_imputer_all_nan_column() {
    let mut imputer = SimpleImputer::<f32>::mean();

    // All NaN in column 0
    let data = vec![f32::NAN, 1.0, f32::NAN, 2.0];

    imputer.fit(&data, 2, &Floats).unwrap();

    // Column 0 all NaN → fallback to 0.0
    assert!((imputer.fill_values()[0] - 0.0).abs() < 0.01);
    // Column 1 mean = 1.5
    assert!((imputer.fill_values()[1] - 1.5).abs() < 0.01);
}

#[test]
fn test_simple_imputer_not_fitted_error() {
    let imputer = SimpleImputer::<f32>::mean();
    let mut data = vec![1.0, 2.0];

    let result = imputer.transform(&mut data, 2);
    assert!(result.is_err());
    let err_msg = result.unwrap_err().message().to_string();
    assert!(
        err_msg.contains("fit") && err_msg.contains("SimpleImputer"),
        "Expected error message to mention fitting and component name, got: {}",
        err_msg
    );
}

#[test]
fn test_indicator_imputer_basic() {
    let imputer = IndicatorImputer::new();

    // 2 rows × 2 features
    let data = vec![1.0, f32::NAN, 3.0, 4.0];
    let names = vec!["age".to_string(), "income".to_string()];

    let (indicators, indicator_names) = imputer.create_indicators(&data, 2, &names);

    // Only income has missing values
    assert_eq!(indicator_names.len(), 1);
    assert_eq!(indicator_names[0], "income_missing");

    // Row 0: income missing (1.0), Row 1: income not missing (0.0)
    assert_eq!(indicators, vec![1.0, 0.0]);
}

#[test]
fn test_indicator_imputer_all_columns() {
    let imputer = IndicatorImputer::new().for_all_columns();

    let data = vec![1.0, 2.0, 3.0, 4.0]; // No NaN
    let names = vec!["a".to_string(), "b".to_string()];

    let (indicators, indicator_names) = imputer.create_indicators(&data, 2, &names);

    // All columns get indicators even without NaN
    assert_eq!(indicator_names.len(), 2);
    assert_eq!(indicators, vec![0.0, 0.0, 0.0, 0.0]); // All zeros
}

#[test]
fn test_indicator_imputer_custom_suffix() {
    let imputer = IndicatorImputer::new().with_suffix("_is_null");

    let data = vec![f32::NAN, 2.0];
    let names = vec!["x".to_string()];

    let (_, indicator_names) = imputer.create_indicators(&data, 1, &names);

    assert_eq!(indicator_names[0], "x_is_null");
}

#[test]
fn test_indicator_imputer_transform_with_indicators() {
    let imputer = IndicatorImputer::new();

    // 2 rows × 2 features
    let data = vec![1.0, f32::NAN, 3.0, 4.0];
    let names = vec!["a".to_string(), "b".to_string()];

    let (combined, combined_names) = imputer.transform_with_indicators(&data, 2, &names);

    // 3 features now: a, b, b_missing
    assert_eq!(combined_names.len(), 3);
    assert_eq!(combined_names, vec!["a", "b", "b_missing"]);

    // 2 rows × 3 features = 6 values
    assert_eq!(combined.len(), 6);

    // Row 0: 1.0, NaN, 1.0 (b was missing)
    assert!((combined[0] - 1.0).abs() < 0.01);
    assert!(combined[1].is_nan());
    assert!((combined[2] - 1.0).abs() < 0.01);

    // Row 1: 3.0, 4.0, 0.0 (b not missing)
    assert!((combined[3] - 3.0).abs() < 0.01);
    assert!((combined[4] - 4.0).abs() < 0.01);
    assert!((combined[5] - 0.0).abs() < 0.01);
}

#[test]
fn test_indicator_imputer_no_missing() {
    let imputer = IndicatorImputer::new();

    let data = vec![1.0, 2.0, 3.0, 4.0];
    let names = vec!["a".to_string(), "b".to_string()];

    let (indicators, indicator_names) = imputer.create_indicators(&data, 2, &names);

    // No missing values → no indicators
    assert!(indicators.is_empty());
    assert!(indicator_names.is_empty());
}

#[test]
fn test_compute_median() {
    assert!((compute_median::<f32>(&[1.0, 2.0, 3.0]) - 2.0).abs() < 0.01);
    assert!((compute_median::<f32>(&[1.0, 2.0, 3.0, 4.0]) - 2.5).abs() < 0.01);
    assert!((compute_median::<f32>(&[5.0]) - 5.0).abs() < 0.01);
    assert!((compute_median::<f32>(&[]) - 0.0).abs() < 0.01);
}

#[test]
fn test_compute_mode() {
    assert!((compute_mode::<f32, Floats>(&[1.0, 2.0, 2.0, 3.0], &Floats) - 2.0).abs() < 0.01);
    assert!((compute_mode::<f32, Floats>(&[5.0], &Floats) - 5.0).abs() < 0.01);
    assert!((compute_mode::<f32, Floats>(&[], &Floats) - 0.0).abs() < 0.01);
}

#[test]
fn test_welford_basic() {
    let mut state = WelfordState::<f64>::new();

    // Add values [1, 2, 3, 4, 5]
    for x in 1..=5 {
        state.update(x as f64, &Floats);
    }

    assert_eq!(state.n, 5);
    assert!((state.mean - 3.0).abs() < 1e-10);

    // Variance of [1,2,3,4,5] = 2.0
    assert!((state.variance(&Floats) - 2.0).abs() < 1e-10);
}

#[test]
fn test_welford_merge() {
    // State A: [1, 2, 3]
    let mut state_a = WelfordState::<f64>::new();
    for x in 1..=3 {
        state_a.update(x as f64, &Floats);
    }

    // State B: [4, 5]
    let mut state_b = WelfordState::<f64>::new();
    for x in 4..=5 {
        state_b.update(x as f64, &Floats);
    }

    // Merge B into A
    state_a.merge(&state_b, &Floats);

    // Should be equivalent to [1, 2, 3, 4, 5]
    assert_eq!(state_a.n, 5);
    assert!((state_a.mean - 3.0).abs() < 1e-10);
    assert!((state_a.variance(&Floats) - 2.0).abs() < 1e-10);
}

#[test]
fn test_welford_numerical_stability() {
    // Test with large offset (classic problem case)
    let mut state = WelfordState::<f64>::new();
    let offset = 1e8_f64;

    // Values: [1e8, 1e8+1, 1e8+2]
    for i in 0..3 {
        state.update(offset + i as f64, &Floats);
    }

    assert_eq!(state.n, 3);
    assert!((state.mean - (offset + 1.0)).abs() < 1e-6);

    // Variance should be ~0.666... (2/3)
    let expected_var = 2.0 / 3.0;
    assert!(
        (state.variance(&Floats) - expected_var).abs() < 1e-10,
        "Welford should handle large offsets: got {} expected {}",
        state.variance(&Floats),
        expected_var
    );
}

#[test]
fn standard_scaler_gives_exact_values() {
    let mut data: Vec<f32> = vec![1.0, 2.0, 3.0, 6.0];
    let mut scaler = StandardScaler::<f32>::new();
    scaler.fit_transform(&mut data, 2, &Floats).unwrap();
    assert_eq!(scaler.means(), &[2.0, 4.0]);
    assert_eq!(scaler.stds(), &[1.0, 2.0]);
    assert_eq!(data, vec![-1.0, -1.0, 1.0, 1.0]);
}

#[test]
fn robust_scaler_falls_back_on_constant_columns() {
    let mut data: Vec<f32> = vec![4.0, 4.0, 4.0];
    let mut scaler = RobustScaler::<f32>::new();
    scaler.fit_transform(&mut data, 1, &Floats).unwrap();
    assert_eq!(scaler.medians, vec![4.0]);
    assert_eq!(scaler.iqrs, vec![1.0]);
    assert_eq!(data, vec![0.0, 0.0, 0.0]);
}

#[test]
fn minmax_scaler_spreads_constant_columns() {
    let mut data: Vec<f32> = vec![7.0, 7.0];
    let mut scaler = MinMaxScaler::<f32>::new();
    scaler.fit_transform(&mut data, 1, &Floats).unwrap();
    assert_eq!(scaler.mins, vec![7.0]);
    assert_eq!(scaler.maxs, vec![8.0]);
    assert_eq!(data, vec![0.0, 0.0]);
}

#[test]
fn minmax_scaler_keeps_columns_in_range() {
    let mut data: Vec<f32> = vec![-3.0, 10.0, 5.5, 2.25, 0.0, 7.0];
    let mut scaler = MinMaxScaler::<f32>::new().with_range(-2.0, 2.0);
    scaler.fit_transform(&mut data, 2, &Floats).unwrap();
    assert!(data.iter().all(|v| *v >= -2.0 && *v <= 2.0));
    assert_eq!(data[0], -2.0);
    assert_eq!(data[1], 2.0);
}

#[test]
fn scalers_refuse_bad_tables() {
    let mut standard = StandardScaler::<f32>::default();
    let mut minmax = MinMaxScaler::<f32>::new();
    let mut robust = RobustScaler::<f32>::default();
    let data: Vec<f32> = vec![1.0, 2.0, 3.0];
    for r in [
        standard.fit(&data, 0, &Floats),
        minmax.fit(&data, 0, &Floats),
        robust.fit(&data, 0, &Floats),
    ] {
        assert_eq!(r.unwrap_err().message(), "num_features must be > 0");
    }
    for r in [
        standard.fit(&data, 2, &Floats),
        minmax.fit(&data, 2, &Floats),
        robust.fit(&data, 2, &Floats),
    ] {
        assert_eq!(
            r.unwrap_err().message(),
            "Data length 3 not divisible by num_features 2"
        );
    }
    for r in [
        standard.fit(&[], 2, &Floats),
        minmax.fit(&[], 2, &Floats),
        robust.fit(&[], 2, &Floats),
    ] {
        assert_eq!(r.unwrap_err().message(), "No rows to fit");
    }
    assert!(!standard.is_fitted() && !minmax.is_fitted() && !robust.is_fitted());

    standard.fit(&[1.0, 2.0], 2, &Floats).unwrap();
    let mut odd: Vec<f32> = vec![1.0, 2.0, 3.0];
    match standard.transform(&mut odd, 2) {
        Err(TreeBoostError::Data(m)) => {
            assert_eq!(m, "Data length 3 not divisible by num_features 2")
        }
        _ => panic!("an uneven table must be refused"),
    }
    assert_eq!(odd, vec![1.0, 2.0, 3.0]);
    match standard.transform(&mut odd, 1) {
        Err(TreeBoostError::Data(m)) => {
            assert_eq!(m, "num_features mismatch: fit with 2, transform with 1")
        }
        _ => panic!("another number of columns must be refused"),
    }
}

#[test]
fn imputer_fills_only_what_is_missing() {
    let mut data: Vec<f32> = vec![1.5, f32::NAN, f32::NAN, 8.0, 2.5, 4.0];
    let mut imputer = SimpleImputer::<f32>::new(ImputeStrategy::Median);
    imputer.fit_transform(&mut data, 2, &Floats).unwrap();
    assert_eq!(imputer.fill_values(), &[2.0, 6.0]);
    assert_eq!(data, vec![1.5, 6.0, 2.0, 8.0, 2.5, 4.0]);
    assert!(matches!(imputer.strategy(), ImputeStrategy::Median));
    assert!(matches!(
        ImputeStrategy::<f32>::default(),
        ImputeStrategy::Mean
    ));
}

#[test]
fn mode_counts_by_hundredths() {
    assert_eq!(
        compute_mode::<f32, Floats>(&[2.5, 1.001, 1.002], &Floats),
        1.001
    );
}

#[test]
fn lists_are_sorted_and_cleared_of_missing_numbers() {
    assert_eq!(sort_numbers(&[3.0f32, 1.0, 2.0, 1.0]), vec![1.0, 1.0, 2.0, 3.0]);
    assert_eq!(keep_present(&[f32::NAN, 2.0, f32::NAN, 1.0]), vec![2.0, 1.0]);
    assert!(keep_present::<f32>(&[f32::NAN]).is_empty());
}

#[test]
fn welford_merge_with_nothing_changes_nothing() {
    let mut a = WelfordState::<f64>::new();
    let empty = WelfordState::<f64>::new();
    assert_eq!(empty.variance(&Floats), 0.0);
    a.update(2.0, &Floats);
    a.update(6.0, &Floats);
    a.merge(&empty, &Floats);
    assert_eq!(a.n, 2);
    assert_eq!(a.mean, 4.0);
    assert_eq!(a.variance(&Floats), 4.0);
    assert_eq!(a.standard_deviation(&Floats), 2.0);
    let mut b = WelfordState::<f64>::new();
    b.merge(&a, &Floats);
    assert_eq!(b.n, 2);
    assert_eq!(b.mean, 4.0);
}

#[test]
fn constant_fills_columns_without_numbers_too() {
    let mut imputer = SimpleImputer::<f32>::constant(-999.0);
    let data = vec![f32::NAN, 1.0, f32::NAN, 2.0];
    imputer.fit(&data, 2, &Floats).unwrap();
    assert_eq!(imputer.fill_values(), &[-999.0, -999.0]);
    let mut table = data.clone();
    imputer.transform(&mut table, 2).unwrap();
    assert_eq!(table, vec![-999.0, 1.0, -999.0, 2.0]);
}

#[test]
fn ranges_out_of_order_are_refused_before_they_matter() {
    let scaler = MinMaxScaler::<f32>::default().with_range(1.0, 0.0);
    let mut data = vec![1.0, 2.0];
    match scaler.transform(&mut data, 2) {
        Err(TreeBoostError::Data(m)) => assert!(m.contains("not fitted")),
        _ => panic!("nothing was learnt"),
    }
    assert_eq!(data, vec![1.0, 2.0]);
}

#[test]
fn clones_go_their_own_way() {
    let mut scaler = MinMaxScaler::<f32>::default();
    scaler.fit(&[0.0, 10.0], 1, &Floats).unwrap();
    let copy = scaler.clone();
    scaler.fit(&[0.0, 20.0], 1, &Floats).unwrap();
    let mut a = vec![5.0];
    copy.transform(&mut a, 1).unwrap();
    assert_eq!(a, vec![0.5]);
    let mut b = vec![5.0];
    scaler.transform(&mut b, 1).unwrap();
    assert_eq!(b, vec![0.25]);
}

#[test]
fn minmax_scaler_keeps_the_order_within_a_column() {
    let data: Vec<f32> = vec![0.3, -7.5, 1e-3, 12.25, -0.1, 0.3, 9e5, 4.0, -7.5, 1e-7, 2.0, 3.0];
    let mut scaler = MinMaxScaler::<f32>::new().with_range(-1.0, 3.0);
    scaler.fit(&data, 2, &Floats).unwrap();
    let mut scaled = data.clone();
    scaler.transform(&mut scaled, 2).unwrap();
    for column in 0..2 {
        for i in 0..6 {
            for j in 0..6 {
                let (a, b) = (2 * i + column, 2 * j + column);
                if data[a] <= data[b] {
                    assert!(scaled[a] <= scaled[b]);
                }
            }
        }
    }

    // Values beyond those learnt keep the order too.
    let mut beyond: Vec<f32> = vec![-100.0, 0.0, 100.0, 1.0, f32::INFINITY, 2.0];
    scaler.transform(&mut beyond, 2).unwrap();
    assert!(beyond[0] <= beyond[2] && beyond[2] <= beyond[4]);
}

#[test]
fn robust_scaler_learns_from_finite_numbers_only() {
    let finite: Vec<f32> = vec![4.0, 1.0, 3.0, 2.0, 8.0];
    let mut plain = RobustScaler::<f32>::new();
    plain.fit(&finite, 1, &Floats).unwrap();

    let mixed: Vec<f32> = vec![
        f32::NAN,
        4.0,
        f32::INFINITY,
        1.0,
        3.0,
        f32::NEG_INFINITY,
        2.0,
        8.0,
        f32::NAN,
    ];
    let mut scaler = RobustScaler::<f32>::new();
    scaler.fit(&mixed, 1, &Floats).unwrap();
    assert_eq!(scaler.medians, plain.medians);
    assert_eq!(scaler.iqrs, plain.iqrs);
    assert_eq!(scaler.medians, vec![3.0]);

    let mut value: Vec<f32> = vec![3.0];
    scaler.transform(&mut value, 1).unwrap();
    assert_eq!(value, vec![0.0]);
}
