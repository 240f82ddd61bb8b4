use tdigest::TDigest;
use treeboost::error::TreeBoostError;
use treeboost::functions::Functions;
use treeboost::preprocessing::target_transform::{
    IdentityTransform, LogitTransform, TargetTransform, TargetTransformKind,
};
use treeboost::preprocessing::transforms::{
    yeo_johnson_inverse, yeo_johnson_transform, YeoJohnsonTransform,
};

/// The functions of the numbers of type `f32`.
struct Floats;

impl Functions<f32> for Floats {
    fn count(&self, n: usize) -> f32 {
        n as f32
    }
    fn whole(&self, v: f32) -> usize {
        v as usize
    }
    fn round(&self, v: f32) -> f32 {
        v.round()
    }
    fn ceil(&self, v: f32) -> f32 {
        v.ceil()
    }
    fn root(&self, v: f32) -> f32 {
        v.sqrt()
    }
    fn ln(&self, v: f32) -> f32 {
        v.ln()
    }
    fn log2(&self, v: f32) -> f32 {
        v.log2()
    }
    fn exp(&self, v: f32) -> f32 {
        v.exp()
    }
    fn pow(&self, base: f32, exponent: f32) -> f32 {
        base.powf(exponent)
    }
    fn powi(&self, base: f32, exponent: i32) -> f32 {
        base.powi(exponent)
    }
    fn hundredths(&self, v: f32) -> i64 {
        (v * 100.0).round() as i64
    }
    fn quartiles(&self, list: &[f32]) -> (f32, f32, f32) {
        let mut digest = TDigest::new_with_size(100);
        for v in list {
            digest = digest.merge_unsorted(vec![*v as f64]);
        }
        (
            digest.estimate_quantile(0.25) as f32,
            digest.estimate_quantile(0.50) as f32,
            digest.estimate_quantile(0.75) as f32,
        )
    }
    fn show(&self, v: f32) -> String {
        format!("{}", v)
    }
    fn fixed(&self, v: f32, digits: usize) -> String {
        format!("{:.1$}", v, digits)
    }
    fn largest(&self) -> f32 {
        f32::MAX
    }
}

#[test]
fn test_identity_transform() {
    let transform = IdentityTransform::new();
    let mut data = vec![1.0, 2.0, 3.0];
    let original = data.clone();

    transform.transform(&mut data, &Floats).unwrap();
    assert_eq!(data, original); // No change

    transform.inverse_transform(&mut data, &Floats).unwrap();
    assert_eq!(data, original); // No change
}

#[test]
fn test_logit_transform_bounds() {
    // Invalid: min >= max
    assert!(LogitTransform::<f32>::new(100.0, 0.0, &Floats).is_err());
    assert!(LogitTransform::<f32>::new(50.0, 50.0, &Floats).is_err());

    // Valid
    assert!(LogitTransform::<f32>::new(0.0, 100.0, &Floats).is_ok());
    assert!(LogitTransform::<f32>::new(-1.0, 1.0, &Floats).is_ok());
}

#[test]
fn test_logit_transform_round_trip() {
    let transform = LogitTransform::<f32>::new(0.0, 100.0, &Floats).unwrap();
    let original = vec![10.0, 50.0, 90.0];
    let mut data = original.clone();

    // Transform to unbounded
    transform.transform(&mut data, &Floats).unwrap();

    // Values should be different
    assert_ne!(data, original);

    // Inverse transform back
    transform.inverse_transform(&mut data, &Floats).unwrap();

    // Should recover original (within tolerance)
    for (orig, recovered) in original.iter().zip(data.iter()) {
        assert!(
            (orig - recovered).abs() < 0.01,
            "Expected {}, got {}",
            orig,
            recovered
        );
    }
}

#[test]
fn test_logit_transform_edge_cases() {
    let transform = LogitTransform::<f32>::new(0.0, 100.0, &Floats).unwrap();

    // Test near boundaries
    let mut data = vec![0.0, 0.1, 99.9, 100.0];
    transform.transform(&mut data, &Floats).unwrap();

    // Should not be infinite
    for val in &data {
        assert!(val.is_finite(), "Transformed value should be finite");
    }

    // Inverse should recover original
    transform.inverse_transform(&mut data, &Floats).unwrap();
    assert!((data[0] - 0.0).abs() < 0.1);
    assert!((data[1] - 0.1).abs() < 0.1);
    assert!((data[2] - 99.9).abs() < 0.1);
    assert!((data[3] - 100.0).abs() < 0.1);
}

#[test]
fn test_logit_transform_out_of_bounds() {
    let transform = LogitTransform::<f32>::new(0.0, 100.0, &Floats).unwrap();

    // Values outside bounds should fail
    let mut data = vec![-10.0, 50.0];
    assert!(transform.transform(&mut data, &Floats).is_err());

    let mut data = vec![50.0, 110.0];
    assert!(transform.transform(&mut data, &Floats).is_err());
}

#[test]
fn test_logit_transform_different_ranges() {
    // Test [0, 1] range (probabilities)
    let transform = LogitTransform::<f32>::new(0.0, 1.0, &Floats).unwrap();
    let mut data = vec![0.1, 0.5, 0.9];
    let original = data.clone();

    transform.transform(&mut data, &Floats).unwrap();
    transform.inverse_transform(&mut data, &Floats).unwrap();

    for (orig, recovered) in original.iter().zip(data.iter()) {
        assert!((orig - recovered).abs() < 0.001);
    }

    // Test [-1, 1] range
    let transform = LogitTransform::<f32>::new(-1.0, 1.0, &Floats).unwrap();
    let mut data = vec![-0.5, 0.0, 0.5];
    let original = data.clone();

    transform.transform(&mut data, &Floats).unwrap();
    transform.inverse_transform(&mut data, &Floats).unwrap();

    for (orig, recovered) in original.iter().zip(data.iter()) {
        assert!((orig - recovered).abs() < 0.001);
    }
}

#[test]
fn test_yeo_johnson_transform_positive() {
    // For positive values, should behave like Box-Cox with shift
    let x: f32 = 5.0;
    let lambda: f32 = 0.5;

    let y = yeo_johnson_transform(x, lambda, &Floats);

    // Should be a positive, reasonable value
    assert!(y > 0.0);
    assert!(y.is_finite());
}

#[test]
fn test_yeo_johnson_transform_negative() {
    // Should handle negative values
    let x: f32 = -5.0;
    let lambda: f32 = 0.5;

    let y = yeo_johnson_transform(x, lambda, &Floats);

    // Should be negative
    assert!(y < 0.0);
    assert!(y.is_finite());
}

#[test]
fn test_yeo_johnson_transform_zero_lambda() {
    // Lambda = 0 should be log transform for positive
    let x: f32 = 5.0;
    let y = yeo_johnson_transform(x, 0.0, &Floats);

    let expected = (x + 1.0).ln();
    assert!((y - expected).abs() < 1e-5);
}

#[test]
fn test_yeo_johnson_transform_lambda_two() {
    // Lambda = 2 should be -log for negative
    let x: f32 = -5.0;
    let y = yeo_johnson_transform(x, 2.0, &Floats);

    let expected = -((-x) + 1.0).ln();
    assert!((y - expected).abs() < 1e-5);
}

#[test]
fn test_yeo_johnson_inverse_positive() {
    let x: f32 = 5.0;
    let lambda: f32 = 0.5;

    let y = yeo_johnson_transform(x, lambda, &Floats);
    let x_recovered = yeo_johnson_inverse(y, lambda, &Floats);

    assert!((x - x_recovered).abs() < 1e-4);
}

#[test]
fn test_yeo_johnson_inverse_negative() {
    let x: f32 = -5.0;
    let lambda: f32 = 0.5;

    let y = yeo_johnson_transform(x, lambda, &Floats);
    let x_recovered = yeo_johnson_inverse(y, lambda, &Floats);

    assert!((x - x_recovered).abs() < 1e-4);
}

#[test]
fn test_yeo_johnson_fit() {
    let mut transform = YeoJohnsonTransform::<f32>::new();

    // Skewed data - should find lambda that normalizes it
    let data = vec![0.1, 10.0, 1.0, 100.0, 5.0, 1000.0]; // 3 rows × 2 features

    transform.fit(&data, 2, &Floats).unwrap();

    assert!(transform.is_fitted());
    assert_eq!(transform.lambdas().len(), 2);

    // Lambdas should be reasonable
    for &lambda in transform.lambdas() {
        assert!(lambda > -5.0 && lambda < 5.0);
    }
}

#[test]
fn test_yeo_johnson_fit_transform() {
    let mut transform = YeoJohnsonTransform::<f32>::new();

    let mut data = vec![0.1, 1.0, 10.0, 100.0]; // 2 rows × 2 features

    transform.fit_transform(&mut data, 2, &Floats).unwrap();

    // Data should be transformed
    assert!(transform.is_fitted());

    // Values should be finite
    for &v in &data {
        assert!(v.is_finite());
    }
}

#[test]
fn test_yeo_johnson_inverse_transform() {
    let mut transform = YeoJohnsonTransform::<f32>::new();

    let original = vec![0.5, 2.0, 5.0, 10.0]; // 2 rows × 2 features
    let mut data = original.clone();

    transform.fit_transform(&mut data, 2, &Floats).unwrap();
    transform.inverse_transform(&mut data, 2, &Floats).unwrap();

    // Should recover original (within tolerance)
    for (orig, recovered) in original.iter().zip(data.iter()) {
        assert!(
            (orig - recovered).abs() < 0.01,
            "orig={}, recovered={}",
            orig,
            recovered
        );
    }
}

#[test]
fn test_yeo_johnson_with_lambdas() {
    // Use fixed lambdas
    let transform = YeoJohnsonTransform::with_lambdas(vec![0.5, 1.0]);

    assert!(transform.is_fitted());
    assert_eq!(transform.lambdas(), &[0.5, 1.0]);
}

#[test]
fn test_yeo_johnson_not_fitted_error() {
    let transform = YeoJohnsonTransform::<f32>::new();
    let mut data = vec![1.0, 2.0];

    let result = transform.transform(&mut data, 2, &Floats);
    assert!(result.is_err());
    assert!(result.unwrap_err().message().contains("not fitted"));
}

#[test]
fn test_yeo_johnson_with_nan() {
    let mut transform = YeoJohnsonTransform::<f32>::new();

    // Data with NaN
    let mut data = vec![1.0, f32::NAN, 5.0, 10.0];

    transform.fit_transform(&mut data, 2, &Floats).unwrap();

    // NaN should remain NaN
    assert!(!data[0].is_nan()); // 1.0 transformed
    assert!(data[1].is_nan()); // Still NaN
    assert!(!data[2].is_nan()); // 5.0 transformed
    assert!(!data[3].is_nan()); // 10.0 transformed
}

#[test]
fn test_yeo_johnson_identity_lambda_one() {
    // Lambda = 1 should be close to identity-ish
    let x: f32 = 5.0;
    let y = yeo_johnson_transform(x, 1.0, &Floats);

    // For lambda=1: y = (x+1)^1 - 1 = x
    assert!((y - x).abs() < 1e-5);
}

#[test]
fn test_yeo_johnson_all_nan_column() {
    let mut transform = YeoJohnsonTransform::<f32>::new();

    // Column 0 all NaN
    let data = vec![f32::NAN, 1.0, f32::NAN, 2.0];

    transform.fit(&data, 2, &Floats).unwrap();

    // Should handle gracefully (lambda = 1.0 for NaN column)
    assert!(transform.is_fitted());
    assert_eq!(transform.lambdas().len(), 2);
}

#[test]
fn logit_of_the_middle_is_zero() {
    let transform = LogitTransform::<f32>::new(0.0, 100.0, &Floats).unwrap();
    let mut data: Vec<f32> = vec![50.0];
    transform.transform(&mut data, &Floats).unwrap();
    assert_eq!(data, vec![0.0]);
    transform.inverse_transform(&mut data, &Floats).unwrap();
    assert_eq!(data, vec![50.0]);
    assert_eq!(transform.bounds(), (0.0, 100.0));
}

#[test]
fn logit_refusals_name_the_numbers() {
    let refused = LogitTransform::<f32>::new(5.0, 5.0, &Floats);
    match refused {
        Err(TreeBoostError::Config(m)) => assert!(m.contains("5")),
        _ => panic!("equal ends must be refused"),
    }
    let transform = LogitTransform::<f32>::new(0.0, 100.0, &Floats).unwrap();
    let mut data: Vec<f32> = vec![110.0];
    match transform.transform(&mut data, &Floats) {
        Err(e) => assert!(e.message().contains("110")),
        Ok(()) => panic!("a number outside must be refused"),
    }
}

#[test]
fn kinds_of_target_transforms() {
    let mut data: Vec<f32> = vec![-5.0, 0.5, 5.0];
    let identity = TargetTransformKind::<f32>::identity();
    identity.transform(&mut data, &Floats).unwrap();
    assert_eq!(data, vec![-5.0, 0.5, 5.0]);

    let clamp = TargetTransformKind::<f32>::clamp(-1.0, 1.0, &Floats).unwrap();
    assert_eq!(clamp.bounds(), (-1.0, 1.0));
    clamp.inverse_transform(&mut data, &Floats).unwrap();
    assert_eq!(data, vec![-1.0, 0.5, 1.0]);
    assert!(TargetTransformKind::<f32>::clamp(2.0, 1.0, &Floats).is_err());

    let logit = TargetTransformKind::<f32>::logit(0.0, 1.0, &Floats).unwrap();
    let mut half: Vec<f32> = vec![0.5];
    logit.transform(&mut half, &Floats).unwrap();
    assert_eq!(half, vec![0.0]);
    assert!(TargetTransformKind::<f32>::logit_with_epsilon(1.0, 0.0, 0.01, &Floats).is_err());
}

#[test]
fn yeo_johnson_at_four() {
    // ((3 + 1)^2 - 1) / 2
    assert_eq!(yeo_johnson_transform(3.0f32, 2.0, &Floats), 7.5);
    assert_eq!(yeo_johnson_inverse(7.5f32, 2.0, &Floats), 3.0);
    assert_eq!(yeo_johnson_transform(0.0f32, 0.5, &Floats), 0.0);
}

#[test]
fn yeo_johnson_refuses_other_widths() {
    let transform = YeoJohnsonTransform::<f32>::with_lambdas(vec![1.0, 1.0]);
    let mut data: Vec<f32> = vec![1.0, 2.0, 3.0];
    assert!(transform.transform(&mut data, 3, &Floats).is_err());
    assert_eq!(data, vec![1.0, 2.0, 3.0]);
    let bounded = YeoJohnsonTransform::<f32>::new()
        .with_max_iter(5)
        .with_tolerance(0.5);
    assert_eq!(bounded.max_iter, 5);
    assert_eq!(bounded.tolerance, 0.5);
}

#[test]
fn a_wider_margin_keeps_the_ends_further_in() {
    let narrow = LogitTransform::<f32>::new(0.0, 1.0, &Floats).unwrap();
    let wide = LogitTransform::<f32>::new(0.0, 1.0, &Floats)
        .unwrap()
        .with_epsilon(0.25);
    assert_eq!(wide.epsilon, 0.25);
    let mut a: Vec<f32> = vec![0.0];
    let mut b: Vec<f32> = vec![0.0];
    narrow.transform(&mut a, &Floats).unwrap();
    wide.transform(&mut b, &Floats).unwrap();
    assert!(a[0] < b[0]);
}
