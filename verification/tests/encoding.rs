use tdigest::TDigest;
use treeboost::error::TreeBoostError;
use treeboost::functions::Functions;
use treeboost::number::sum;
use treeboost::preprocessing::encoding::{LabelEncoder, OneHotEncoder, UnknownStrategy};
use treeboost::preprocessing::frequency::FrequencyEncoder;
use treeboost::preprocessing::incremental::{not_supported_error, IncrementalEncoder};

/// The functions of the numbers of type `f32`.
struct Floats;

impl Functions<f32> for Floats {
    fn count(&self, n: usize) -> f32 {
        n as f32
    }
    fn whole(&self, v: f32) -> usize {
        v as usize
    }
    fn round(&self, v: f32) -> f32 {
        v.round()
    }
    fn ceil(&self, v: f32) -> f32 {
        v.ceil()
    }
    fn root(&self, v: f32) -> f32 {
        v.sqrt()
    }
    fn ln(&self, v: f32) -> f32 {
        v.ln()
    }
    fn log2(&self, v: f32) -> f32 {
        v.log2()
    }
    fn exp(&self, v: f32) -> f32 {
        v.exp()
    }
    fn pow(&self, base: f32, exponent: f32) -> f32 {
        base.powf(exponent)
    }
    fn powi(&self, base: f32, exponent: i32) -> f32 {
        base.powi(exponent)
    }
    fn hundredths(&self, v: f32) -> i64 {
        (v * 100.0).round() as i64
    }
    fn quartiles(&self, list: &[f32]) -> (f32, f32, f32) {
        let mut digest = TDigest::new_with_size(100);
        for v in list {
            digest = digest.merge_unsorted(vec![*v as f64]);
        }
        (
            digest.estimate_quantile(0.25) as f32,
            digest.estimate_quantile(0.50) as f32,
            digest.estimate_quantile(0.75) as f32,
        )
    }
    fn show(&self, v: f32) -> String {
        format!("{}", v)
    }
    fn fixed(&self, v: f32, digits: usize) -> String {
        format!("{:.1$}", v, digits)
    }
    fn largest(&self) -> f32 {
        f32::MAX
    }
}

#[test]
fn test_frequency_encoder_basic() {
    let categories = vec!["A", "B", "A", "C", "A", "B"];
    let mut encoder: FrequencyEncoder<f32> = FrequencyEncoder::new();
    encoder.fit(&categories);

    assert!(encoder.is_fitted());
    assert_eq!(encoder.num_categories(), 3);

    assert_eq!(encoder.transform_single("A", &Floats), Some(3.0));
    assert_eq!(encoder.transform_single("B", &Floats), Some(2.0));
    assert_eq!(encoder.transform_single("C", &Floats), Some(1.0));
}

#[test]
fn test_frequency_encoder_unknown() {
    let categories = vec!["A", "B", "A"];
    let mut encoder: FrequencyEncoder<f32> = FrequencyEncoder::new();
    encoder.fit(&categories);
    assert_eq!(encoder.transform_single("D", &Floats), Some(0.0));

    let mut encoder2: FrequencyEncoder<f32> = FrequencyEncoder::new().with_unknown_value(None);
    encoder2.fit(&categories);
    assert_eq!(encoder2.transform_single("D", &Floats), None);
}

#[test]
fn test_frequency_encoder_normalize() {
    let categories = vec!["A", "B", "A", "A", "B"];
    let mut encoder: FrequencyEncoder<f32> = FrequencyEncoder::new().with_normalize(true);
    encoder.fit(&categories);

    assert!((encoder.transform_single("A", &Floats).unwrap() - 0.6).abs() < 1e-6);
    assert!((encoder.transform_single("B", &Floats).unwrap() - 0.4).abs() < 1e-6);
}

#[test]
fn test_frequency_encoder_transform_batch() {
    let categories = vec!["A", "B", "A", "C", "A"];
    let mut encoder: FrequencyEncoder<f32> = FrequencyEncoder::new();
    encoder.fit(&categories);

    let result = encoder.transform(&["A", "B", "C"], &Floats).unwrap();
    assert_eq!(result, vec![3.0, 1.0, 1.0]);
}

#[test]
fn test_frequency_encoder_errors() {
    let encoder: FrequencyEncoder<f32> = FrequencyEncoder::new();
    assert_eq!(encoder.transform_single("A", &Floats), None);
    match encoder.transform(&["A"], &Floats) {
        Err(TreeBoostError::Data(m)) => {
            assert_eq!(m, "FrequencyEncoder not fitted. Call fit() first.")
        }
        _ => panic!("an encoder that was not fitted must refuse"),
    }

    let mut strict: FrequencyEncoder<f32> = FrequencyEncoder::new().with_unknown_value(None);
    strict.fit(&["A"]);
    match strict.transform(&["A", "A", "Z"], &Floats) {
        Err(TreeBoostError::Data(m)) => assert_eq!(
            m,
            "Unknown category 'Z' at index 2 and no unknown_value set"
        ),
        _ => panic!("an unknown category must be refused"),
    }
}

#[test]
fn test_frequency_encoder_batches_add_up() {
    let mut once: FrequencyEncoder<f32> = FrequencyEncoder::default();
    let codes = once
        .fit_transform(&["x", "y", "x", "z", "x"], &Floats)
        .unwrap();
    assert_eq!(codes, vec![3.0, 1.0, 3.0, 1.0, 3.0]);

    let mut twice: FrequencyEncoder<f32> = FrequencyEncoder::new();
    twice.partial_fit(&["x", "y"]).unwrap();
    twice.partial_fit(&["x", "z", "x"]).unwrap();
    assert_eq!(twice.n_samples(), 5);
    for c in ["x", "y", "z", "w"] {
        assert_eq!(once.count(c), twice.count(c));
    }
    assert_eq!(twice.count("x"), 3);
    assert_eq!(twice.count("w"), 0);
    assert_eq!(twice.num_categories(), 3);
    assert_eq!(twice.counts().keys(), vec!["x", "y", "z"]);
    assert_eq!(twice.counts().get("x"), Some(&3));
}

#[test]
fn test_label_encoder_basic() {
    let categories = vec!["red", "blue", "red", "green"];
    let mut encoder = LabelEncoder::new();
    encoder.fit(&categories);

    assert!(encoder.is_fitted());
    assert_eq!(encoder.num_classes(), 3);

    assert_eq!(encoder.transform_single("blue"), Some(0));
    assert_eq!(encoder.transform_single("green"), Some(1));
    assert_eq!(encoder.transform_single("red"), Some(2));
}

#[test]
fn test_label_encoder_unknown() {
    let categories = vec!["A", "B"];
    let mut encoder = LabelEncoder::new();
    encoder.fit(&categories);
    assert_eq!(encoder.transform_single("C"), None);

    let mut encoder2 = LabelEncoder::new().with_unknown_label(Some(999));
    encoder2.fit(&categories);
    assert_eq!(encoder2.transform_single("C"), Some(999));
}

#[test]
fn test_label_encoder_inverse_transform() {
    let categories = vec!["red", "blue", "green"];
    let mut encoder = LabelEncoder::new();
    encoder.fit(&categories);

    let labels = encoder.transform(&["red", "blue", "green"]).unwrap();
    let reversed = encoder.inverse_transform(&labels).unwrap();

    assert_eq!(reversed, vec!["red", "blue", "green"]);
}

#[test]
fn test_label_encoder_classes() {
    let categories = vec!["C", "A", "B", "A"];
    let mut encoder = LabelEncoder::new();
    encoder.fit(&categories);

    assert_eq!(encoder.classes(), &["A", "B", "C"]);
}

#[test]
fn test_label_encoder_errors() {
    let mut encoder = LabelEncoder::default();
    assert!(!encoder.is_fitted());
    assert_eq!(
        encoder.transform(&["a"]).unwrap_err().message(),
        "LabelEncoder not fitted. Call fit() first."
    );
    assert_eq!(
        encoder.inverse_transform(&[0]).unwrap_err().message(),
        "LabelEncoder not fitted. Call fit() first."
    );
    assert_eq!(encoder.fit_transform(&["b", "a", "b"]).unwrap(), vec![1, 0, 1]);
    assert_eq!(
        encoder.transform(&["a", "q"]).unwrap_err().message(),
        "Unknown category 'q' at index 1 and no unknown_label set"
    );
    assert_eq!(
        encoder.inverse_transform(&[0, 1, 12]).unwrap_err().message(),
        "Unknown label 12 at index 2"
    );
    assert_eq!(encoder.get_category(1), Some("b"));
    assert_eq!(encoder.get_category(2), None);
    assert_eq!(encoder.get_label("a"), Some(0));
    assert_eq!(encoder.get_label("c"), None);
}

#[test]
fn test_label_encoder_order_is_by_bytes() {
    let mut encoder = LabelEncoder::new();
    encoder.fit(&["b", "Z", "\u{e9}", "aa", "a", ""]);
    assert_eq!(encoder.classes(), &["", "Z", "a", "aa", "b", "\u{e9}"]);
}

#[test]
fn test_onehot_encoder_basic() {
    let categories = vec!["red", "blue", "green"];
    let mut encoder = OneHotEncoder::new();
    encoder.fit(&categories).unwrap();

    assert!(encoder.is_fitted());
    assert_eq!(encoder.num_columns(), 3);

    let blue: Vec<f32> = encoder.transform_single("blue").unwrap();
    let green: Vec<f32> = encoder.transform_single("green").unwrap();
    let red: Vec<f32> = encoder.transform_single("red").unwrap();

    assert_eq!(blue, vec![1.0, 0.0, 0.0]);
    assert_eq!(green, vec![0.0, 1.0, 0.0]);
    assert_eq!(red, vec![0.0, 0.0, 1.0]);
}

#[test]
fn test_onehot_encoder_drop_first() {
    let categories = vec!["red", "blue", "green"];
    let mut encoder = OneHotEncoder::new().with_drop_first(true);
    encoder.fit(&categories).unwrap();

    assert_eq!(encoder.num_columns(), 2);

    let blue: Vec<f32> = encoder.transform_single("blue").unwrap();
    let green: Vec<f32> = encoder.transform_single("green").unwrap();
    let red: Vec<f32> = encoder.transform_single("red").unwrap();

    assert_eq!(blue, vec![0.0, 0.0]);
    assert_eq!(green, vec![1.0, 0.0]);
    assert_eq!(red, vec![0.0, 1.0]);
    assert_eq!(encoder.get_feature_names("c"), vec!["c_green", "c_red"]);
}

#[test]
fn test_onehot_encoder_unknown_allzeros() {
    let categories = vec!["A", "B"];
    let mut encoder = OneHotEncoder::new().with_unknown_strategy(UnknownStrategy::AllZeros);
    encoder.fit(&categories).unwrap();

    let unknown: Vec<f32> = encoder.transform_single("C").unwrap();
    assert_eq!(unknown, vec![0.0, 0.0]);
}

#[test]
fn test_onehot_encoder_unknown_error() {
    let categories = vec!["A", "B"];
    let mut encoder = OneHotEncoder::new().with_unknown_strategy(UnknownStrategy::Error);
    encoder.fit(&categories).unwrap();

    let result = encoder.transform_single::<f32>("C");
    assert!(result.is_err());
    assert_eq!(result.unwrap_err().message(), "Unknown category 'C'");
    assert_eq!(
        encoder.transform::<f32>(&["A", "D", "C"]).unwrap_err().message(),
        "Unknown category 'D'"
    );
}

#[test]
fn test_onehot_encoder_feature_names() {
    let categories = vec!["red", "blue", "green"];
    let mut encoder = OneHotEncoder::new();
    encoder.fit(&categories).unwrap();

    let names = encoder.get_feature_names("color");
    assert_eq!(names, vec!["color_blue", "color_green", "color_red"]);
}

#[test]
fn test_onehot_encoder_batch_transform() {
    let categories = vec!["A", "B", "C"];
    let mut encoder = OneHotEncoder::new();
    encoder.fit(&categories).unwrap();

    let result: Vec<f32> = encoder.transform(&["A", "B", "C"]).unwrap();
    assert_eq!(result.len(), 9);
    assert_eq!(result, vec![1.0, 0.0, 0.0, 0.0, 1.0, 0.0, 0.0, 0.0, 1.0]);
}

#[test]
fn test_onehot_encoder_max_categories_limit() {
    let owned: Vec<String> = (0..150).map(|i| format!("cat_{}", i)).collect();
    let categories: Vec<&str> = owned.iter().map(|s| s.as_str()).collect();

    let mut encoder = OneHotEncoder::new();
    let result = encoder.fit(&categories);
    assert!(result.is_err());
    let error = result.unwrap_err();
    let err_msg = error.message();
    assert!(err_msg.contains("150 unique categories"));
    assert!(err_msg.contains("max_categories limit of 100"));
    assert!(matches!(error, TreeBoostError::Config(_)));
    assert!(!encoder.is_fitted());
    assert_eq!(encoder.num_columns(), 0);

    let mut encoder2 = OneHotEncoder::new().with_max_categories(200);
    assert!(encoder2.fit(&categories).is_ok());
    assert_eq!(encoder2.num_columns(), 150);

    let mut encoder3 = OneHotEncoder::new().with_max_categories(0);
    assert!(encoder3.fit(&categories).is_ok());

    let small_categories = vec!["A", "B", "C"];
    let mut encoder4 = OneHotEncoder::new();
    assert!(encoder4.fit(&small_categories).is_ok());
    assert_eq!(encoder4.max_categories(), 100);
}

#[test]
fn test_onehot_encoder_refused_fit_keeps_the_old_one() {
    let mut encoder = OneHotEncoder::default().with_max_categories(2);
    assert_eq!(
        encoder.transform::<f32>(&["a"]).unwrap_err().message(),
        "OneHotEncoder not fitted. Call fit() first."
    );
    let rows: Vec<f32> = encoder.fit_transform(&["b", "a", "b"]).unwrap();
    assert_eq!(rows, vec![0.0, 1.0, 1.0, 0.0, 0.0, 1.0]);
    assert!(encoder.fit(&["p", "q", "r"]).is_err());
    assert_eq!(encoder.categories(), &["a", "b"]);
}

#[test]
fn test_not_supported_error() {
    let e = not_supported_error("LabelEncoder");
    assert_eq!(
        e.message(),
        "LabelEncoder does not support incremental fitting. Schema is frozen after first fit. For incremental learning, use FrequencyEncoder or TargetEncoder instead of LabelEncoder."
    );
    assert!(matches!(e, TreeBoostError::Config(_)));
}

#[test]
fn test_sum() {
    assert_eq!(sum(&[1.0f32, 2.5, -0.5]), 3.0);
}
