use tdigest::TDigest;
use treeboost::error::{Result, TreeBoostError};
use treeboost::functions::Functions;
use treeboost::preprocessing::encoding::{LabelEncoder, OneHotEncoder};
use treeboost::preprocessing::frequency::FrequencyEncoder;
use treeboost::preprocessing::imputer::SimpleImputer;
use treeboost::preprocessing::pipeline::{PipelineBuilder, Preprocessor};
use treeboost::preprocessing::registry::{
    construct_preprocessor, get_constructor, is_registered, register_preprocessor,
    registered_types, Registry,
};
use treeboost::preprocessing::scaler::{MinMaxScaler, StandardScaler};
use treeboost::preprocessing::traits::PreprocessorTrait;

/// The functions of the numbers of type `f32`.
struct Floats;

impl Functions<f32> for Floats {
    fn count(&self, n: usize) -> f32 {
        n as f32
    }
    fn whole(&self, v: f32) -> usize {
        v as usize
    }
    fn round(&self, v: f32) -> f32 {
        v.round()
    }
    fn ceil(&self, v: f32) -> f32 {
        v.ceil()
    }
    fn root(&self, v: f32) -> f32 {
        v.sqrt()
    }
    fn ln(&self, v: f32) -> f32 {
        v.ln()
    }
    fn log2(&self, v: f32) -> f32 {
        v.log2()
    }
    fn exp(&self, v: f32) -> f32 {
        v.exp()
    }
    fn pow(&self, base: f32, exponent: f32) -> f32 {
        base.powf(exponent)
    }
    fn powi(&self, base: f32, exponent: i32) -> f32 {
        base.powi(exponent)
    }
    fn hundredths(&self, v: f32) -> i64 {
        (v * 100.0).round() as i64
    }
    fn quartiles(&self, list: &[f32]) -> (f32, f32, f32) {
        let mut digest = TDigest::new_with_size(100);
        for v in list {
            digest = digest.merge_unsorted(vec![*v as f64]);
        }
        (
            digest.estimate_quantile(0.25) as f32,
            digest.estimate_quantile(0.50) as f32,
            digest.estimate_quantile(0.75) as f32,
        )
    }
    fn show(&self, v: f32) -> String {
        format!("{}", v)
    }
    fn fixed(&self, v: f32, digits: usize) -> String {
        format!("{:.1$}", v, digits)
    }
    fn largest(&self) -> f32 {
        f32::MAX
    }
}

/// Shifts a table by the mean of another one.
#[derive(Clone, Debug, Default)]
struct TestScaler {
    mean: f32,
    fitted: bool,
}

impl PreprocessorTrait<f32> for TestScaler {
    fn type_id(&self) -> &'static str {
        "test::TestScaler"
    }

    fn supports_numerical(&self) -> bool {
        true
    }

    fn fit_numerical(&mut self, data: &[f32], _num_features: usize) -> Result<()> {
        if data.is_empty() {
            return Err(TreeBoostError::Config("Empty data".into()));
        }
        self.mean = data.iter().sum::<f32>() / data.len() as f32;
        self.fitted = true;
        Ok(())
    }

    fn transform_numerical(&self, data: &mut [f32], _num_features: usize) -> Result<()> {
        if !self.fitted {
            return Err(TreeBoostError::Config("Not fitted".into()));
        }
        for x in data.iter_mut() {
            *x -= self.mean;
        }
        Ok(())
    }

    fn is_fitted(&self) -> bool {
        self.fitted
    }

    fn serialize_state(&self) -> Result<Vec<u8>> {
        Ok(format!("{}|{}", self.mean, self.fitted).into_bytes())
    }

    fn deserialize_state(&mut self, data: &[u8]) -> Result<()> {
        let s = std::str::from_utf8(data)
            .map_err(|e| TreeBoostError::Serialization(e.to_string()))?;
        let parts: Vec<&str> = s.split('|').collect();
        if parts.len() != 2 {
            return Err(TreeBoostError::Serialization("Invalid format".into()));
        }
        self.mean = parts[0].parse().map_err(|e: std::num::ParseFloatError| {
            TreeBoostError::Serialization(e.to_string())
        })?;
        self.fitted = parts[1] == "true";
        Ok(())
    }
}

type Step = Preprocessor<f32, TestScaler>;

fn make(state: &[u8]) -> Result<TestScaler> {
    let mut scaler = TestScaler::default();
    scaler.deserialize_state(state)?;
    Ok(scaler)
}

type Maker = fn(&[u8]) -> Result<TestScaler>;

fn registry() -> Registry<Maker> {
    let mut registry: Registry<Maker> = Registry::new();
    register_preprocessor::<f32, TestScaler, Maker>(&mut registry, make);
    registry
}

#[test]
fn test_preprocessor_standard_scaler() {
    let mut preprocessor: Step = Preprocessor::Standard(StandardScaler::new());
    let mut data = vec![1.0, 2.0, 3.0, 4.0, 5.0, 6.0];

    preprocessor.fit_numerical(&data, 3, &Floats).unwrap();
    assert!(preprocessor.is_fitted());
    assert!(preprocessor.is_numerical());
    assert!(!preprocessor.is_categorical());

    preprocessor.transform_numerical(&mut data, 3, &Floats).unwrap();
    assert_eq!(data, vec![-1.0, -1.0, -1.0, 1.0, 1.0, 1.0]);
}

#[test]
fn test_preprocessor_frequency_encoder() {
    let mut preprocessor: Step = Preprocessor::Frequency(FrequencyEncoder::new());
    let categories = vec!["A", "B", "A", "C"];

    preprocessor.fit_categorical(&categories).unwrap();
    assert!(preprocessor.is_fitted());
    assert!(preprocessor.is_categorical());
    assert!(!preprocessor.is_numerical());

    let encoded = preprocessor
        .transform_categorical(&categories, &Floats)
        .unwrap();
    assert_eq!(encoded, vec![2.0, 1.0, 2.0, 1.0]);
}

#[test]
fn test_preprocessor_pipeline() {
    let mut pipeline: Step = Preprocessor::Pipeline(Box::new(vec![
        Preprocessor::Standard(StandardScaler::new()),
        Preprocessor::MinMax(MinMaxScaler::new()),
    ]));

    let mut data = vec![1.0, 2.0, 3.0, 4.0, 5.0, 6.0];
    pipeline.fit_numerical(&data, 3, &Floats).unwrap();

    assert!(pipeline.is_fitted());
    assert!(pipeline.is_pipeline());

    pipeline.transform_numerical(&mut data, 3, &Floats).unwrap();
    assert_eq!(data, vec![0.0, 0.0, 0.0, 1.0, 1.0, 1.0]);
}

#[test]
fn test_pipeline_builder() {
    let pipeline: Step = PipelineBuilder::new()
        .with_standard_scaler()
        .with_minmax_scaler()
        .build();

    assert!(pipeline.is_pipeline());
}

#[test]
fn test_from_conversions() {
    let p1: Step = StandardScaler::new().into();
    assert!(matches!(p1, Preprocessor::Standard(_)));

    let p2: Step = FrequencyEncoder::new().into();
    assert!(matches!(p2, Preprocessor::Frequency(_)));

    let p3: Step = OneHotEncoder::new().into();
    assert!(matches!(p3, Preprocessor::OneHot(_)));
}

#[test]
fn test_numerical_on_categorical_error() {
    let mut preprocessor: Step = Preprocessor::Frequency(FrequencyEncoder::new());
    let data = vec![1.0, 2.0, 3.0];

    let result = preprocessor.fit_numerical(&data, 3, &Floats);
    assert!(result.is_err());
}

#[test]
fn test_categorical_on_numerical_error() {
    let mut preprocessor: Step = Preprocessor::Standard(StandardScaler::new());
    let categories = vec!["A", "B"];

    let result = preprocessor.fit_categorical(&categories);
    assert!(result.is_err());
}

#[test]
fn test_is_custom() {
    let standard: Step = Preprocessor::Standard(StandardScaler::new());
    assert!(!standard.is_custom());
}

#[test]
fn test_debug_impl() {
    let preprocessor: Step = Preprocessor::Standard(StandardScaler::new());
    let debug_str = format!("{:?}", preprocessor);
    assert!(debug_str.contains("Standard"));
}

#[test]
fn test_custom_preprocessor_create_and_use() {
    let mut scaler = TestScaler::default();
    scaler.fit_numerical(&[1.0, 2.0, 3.0, 4.0], 2).unwrap();
    assert!(scaler.is_fitted());

    let custom: Step = Preprocessor::custom(scaler).unwrap();
    assert!(custom.is_custom());
    assert!(custom.is_fitted());
    assert!(custom.is_numerical());

    let mut data = vec![5.0, 6.0];
    custom.transform_numerical(&mut data, 2, &Floats).unwrap();
    assert!((data[0] - 2.5).abs() < 0.001);
    assert!((data[1] - 3.5).abs() < 0.001);
}

#[test]
fn test_custom_preprocessor_in_pipeline() {
    let pipeline: Step = PipelineBuilder::new()
        .with_custom(TestScaler::default())
        .unwrap()
        .with_standard_scaler()
        .build();

    assert!(pipeline.is_pipeline());

    let mut data = vec![1.0, 2.0, 3.0, 4.0, 5.0, 6.0];
    let mut pipeline = pipeline;
    pipeline.fit_numerical(&data, 3, &Floats).unwrap();
    assert!(pipeline.is_fitted());

    pipeline.transform_numerical(&mut data, 3, &Floats).unwrap();
}

#[test]
fn test_custom_preprocessor_uninitialized_error() {
    let custom: Step = Preprocessor::Custom {
        type_id: "test::TestCustomScaler".to_string(),
        serialized_state: vec![],
        instance: None,
    };

    let mut data = vec![1.0, 2.0];
    let result = custom.transform_numerical(&mut data, 2, &Floats);
    assert!(result.is_err());
    assert!(result.unwrap_err().message().contains("not initialized"));
}

#[test]
fn test_register_and_lookup() {
    let registry = registry();
    assert!(is_registered(&registry, "test::TestScaler"));
    assert!(!is_registered(&registry, "nonexistent::Type"));
}

#[test]
fn test_construct_preprocessor() {
    let registry = registry();
    let state = "42.5|true".as_bytes();
    let instance = construct_preprocessor(&registry, "test::TestScaler", state).unwrap();

    assert_eq!(instance.type_id(), "test::TestScaler");
    assert!(instance.is_fitted());
    assert_eq!(instance.mean, 42.5);
}

#[test]
fn test_unknown_type_error() {
    let mut registry = registry();
    registry.register("a\"b", make);
    let result = construct_preprocessor(&registry, "unknown::Type", &[]);
    assert!(result.is_err());

    let err = result.unwrap_err();
    assert!(err.message().contains("Unknown preprocessor type"));
    assert!(err.message().contains("register_preprocessor"));
    assert!(err
        .message()
        .ends_with("Registered types: [\"a\\\"b\", \"test::TestScaler\"]"));
}

#[test]
fn test_registered_types() {
    let registry = registry();
    let types = registered_types(&registry);
    assert!(types.contains(&"test::TestScaler"));
}

#[test]
fn test_preprocessor_trait_implementation() {
    let mut scaler = TestScaler::default();
    assert!(!scaler.is_fitted());
    assert!(scaler.supports_numerical());
    assert!(!scaler.supports_categorical());

    scaler.fit_numerical(&[1.0, 2.0, 3.0, 4.0], 2).unwrap();
    assert!(scaler.is_fitted());
    assert!((scaler.mean - 2.5).abs() < 0.001);

    let mut data = vec![1.0, 2.0, 3.0, 4.0];
    scaler.transform_numerical(&mut data, 2).unwrap();
    assert!((data[0] - (-1.5)).abs() < 0.001);
}

#[test]
fn test_serialization_roundtrip() {
    let mut scaler = TestScaler::default();
    scaler.fit_numerical(&[1.0, 2.0, 3.0], 1).unwrap();

    let serialized = scaler.serialize_state().unwrap();
    let mut loaded = TestScaler::default();
    loaded.deserialize_state(&serialized).unwrap();

    assert!(loaded.is_fitted());
    assert!((loaded.mean - scaler.mean).abs() < 0.001);
}

#[test]
fn test_categorical_not_supported() {
    let scaler = TestScaler::default();
    assert!(!scaler.supports_categorical());

    let result = scaler.transform_categorical(&["A", "B"]);
    assert!(result.is_err());
    assert_eq!(
        result.unwrap_err().message(),
        "test::TestScaler does not support categorical operations"
    );
}

#[test]
fn a_later_entry_replaces_an_earlier_one() {
    let mut registry = registry();
    assert!(registry.register("test::TestScaler", |_| Err(TreeBoostError::Config(
        "no".into()
    ))));
    assert!(!registry.register("test::Other", make));
    assert_eq!(
        registered_types(&registry),
        vec!["test::Other", "test::TestScaler"]
    );
    assert!(get_constructor(&registry, "test::None").is_none());
    let refused = construct_preprocessor(&registry, "test::TestScaler", b"1|true");
    assert_eq!(refused.unwrap_err().message(), "no");
}

#[test]
fn stored_preprocessors_are_made_again() {
    let mut pipeline: Step = PipelineBuilder::new()
        .with_preprocessor(Preprocessor::Custom {
            type_id: "test::TestScaler".to_string(),
            serialized_state: b"25|true".to_vec(),
            instance: None,
        })
        .with_standard_scaler()
        .build();
    assert!(!pipeline.is_fitted());
    pipeline.ensure_initialized(&registry()).unwrap();
    match pipeline {
        Preprocessor::Pipeline(steps) => {
            assert!(steps[0].is_fitted());
            let mut data = vec![25.0, 35.0];
            steps[0].transform_numerical(&mut data, 2, &Floats).unwrap();
            assert_eq!(data, vec![0.0, 10.0]);
        }
        _ => panic!("a pipeline stays one"),
    }

    let mut unknown: Step = Preprocessor::Custom {
        type_id: "test::Unknown".to_string(),
        serialized_state: vec![],
        instance: None,
    };
    match unknown.ensure_initialized(&registry()) {
        Err(TreeBoostError::Serialization(m)) => assert!(m.contains("test::Unknown")),
        _ => panic!("an unknown kind must be refused"),
    }
}

#[test]
fn categories_through_every_encoder() {
    let categories = vec!["b", "a", "b"];
    let mut label: Step = LabelEncoder::new().into();
    assert_eq!(
        label.fit_transform_categorical(&categories, &Floats).unwrap(),
        vec![1.0, 0.0, 1.0]
    );
    let mut one_hot: Step = OneHotEncoder::new().into();
    assert_eq!(one_hot.num_output_columns(), Some(0));
    assert_eq!(label.num_output_columns(), Some(1));
    one_hot.fit_categorical(&categories).unwrap();
    assert_eq!(one_hot.num_output_columns(), Some(2));
}

#[test]
fn a_chain_imputes_before_it_scales() {
    let mut pipeline: Step = PipelineBuilder::default()
        .with_imputer(SimpleImputer::constant(2.0))
        .with_standard_scaler()
        .build();
    let mut data = vec![1.0, f32::NAN, 3.0];
    pipeline
        .fit_transform_numerical(&mut data, 1, &Floats)
        .unwrap();
    assert_eq!(data[1], 0.0);
    assert_eq!(data[0], -data[2]);

    let longer: Step = PipelineBuilder::new()
        .with_mean_imputer()
        .with_median_imputer()
        .with_robust_scaler()
        .with_yeo_johnson()
        .with_scaler(MinMaxScaler::new())
        .build();
    match longer {
        Preprocessor::Pipeline(steps) => {
            assert_eq!(steps.len(), 5);
            assert!(steps[0].is_imputer());
            assert!(steps[3].is_transform());
        }
        _ => panic!("the builder makes a pipeline"),
    }
}

#[test]
fn members_of_the_user_learn_and_transform_in_a_chain() {
    let mut chain: Step = PipelineBuilder::new()
        .with_custom(TestScaler::default())
        .unwrap()
        .with_standard_scaler()
        .build();
    let mut data = vec![1.0, 2.0, 3.0, 4.0, 5.0, 6.0];
    chain.fit_transform_numerical(&mut data, 3, &Floats).unwrap();
    assert_eq!(data, vec![-1.0, -1.0, -1.0, 1.0, 1.0, 1.0]);
    match &chain {
        Preprocessor::Pipeline(steps) => match &steps[0] {
            Preprocessor::Custom {
                serialized_state, ..
            } => assert_eq!(serialized_state, &b"3.5|true".to_vec()),
            _ => panic!("the first member is the user's"),
        },
        _ => panic!("a chain stays one"),
    }
}

#[test]
fn errors_of_the_user_come_through_a_chain() {
    let mut chain: Step = PipelineBuilder::new()
        .with_custom(TestScaler::default())
        .unwrap()
        .with_standard_scaler()
        .build();
    match chain.fit_numerical(&[], 3, &Floats) {
        Err(TreeBoostError::Config(m)) => assert_eq!(m, "Empty data"),
        _ => panic!("the user's answer is the result"),
    }
    let mut data = vec![1.0, 2.0, 3.0];
    match chain.transform_numerical(&mut data, 3, &Floats) {
        Err(TreeBoostError::Config(m)) => assert_eq!(m, "Not fitted"),
        _ => panic!("the user's answer is the result"),
    }
    assert_eq!(data, vec![1.0, 2.0, 3.0]);
}

#[test]
fn tables_without_columns_are_refused() {
    let mut chain: Step = PipelineBuilder::new()
        .with_standard_scaler()
        .with_minmax_scaler()
        .build();
    match chain.fit_numerical(&[], 0, &Floats) {
        Err(TreeBoostError::Data(m)) => assert!(m.contains("num_features must be > 0")),
        _ => panic!("a scaler needs columns"),
    }
    let mut imputer: Step = Preprocessor::Imputer(SimpleImputer::mean());
    assert!(imputer.fit_numerical(&[], 0, &Floats).is_err());
    assert!(imputer.transform_numerical(&mut [], 0, &Floats).is_err());
}

#[test]
fn chains_can_be_cloned() {
    let mut chain: Step = PipelineBuilder::new()
        .with_custom(TestScaler::default())
        .unwrap()
        .with_standard_scaler()
        .build();
    let fresh = chain.clone();
    chain
        .fit_numerical(&[1.0, 2.0, 3.0, 4.0], 2, &Floats)
        .unwrap();
    assert!(chain.is_fitted());
    assert!(!fresh.is_fitted());
    assert!(chain.clone().is_fitted());
    let mut label: Step = Preprocessor::Label(LabelEncoder::new());
    label.fit_categorical(&["b", "a"]).unwrap();
    assert_eq!(
        label.clone().transform_categorical(&["b"], &Floats).unwrap(),
        vec![1.0]
    );
    let mut counts: Step = Preprocessor::Frequency(FrequencyEncoder::new());
    counts.fit_categorical(&["b", "a", "b"]).unwrap();
    assert_eq!(
        counts.clone().transform_categorical(&["b"], &Floats).unwrap(),
        vec![2.0]
    );
    let mut columns: Step = Preprocessor::OneHot(OneHotEncoder::new());
    columns.fit_categorical(&["b", "a"]).unwrap();
    assert_eq!(columns.clone().num_output_columns(), Some(2));
}
