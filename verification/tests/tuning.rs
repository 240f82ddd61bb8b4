use tdigest::TDigest;
use treeboost::functions::Functions;
use treeboost::text_map::TextMap;
use treeboost::tuner::config::{EvalStrategy, GridStrategy, TunerConfig};
use treeboost::tuner::metrics::{sigmoid, Metric};
use treeboost::tuner::space::{ParamBounds, ParamDef, ParameterSpace};

/// The functions of the numbers of type `f32`.
struct Floats;

impl Functions<f32> for Floats {
    fn count(&self, n: usize) -> f32 {
        n as f32
    }
    fn whole(&self, v: f32) -> usize {
        v as usize
    }
    fn round(&self, v: f32) -> f32 {
        v.round()
    }
    fn ceil(&self, v: f32) -> f32 {
        v.ceil()
    }
    fn root(&self, v: f32) -> f32 {
        v.sqrt()
    }
    fn ln(&self, v: f32) -> f32 {
        v.ln()
    }
    fn log2(&self, v: f32) -> f32 {
        v.log2()
    }
    fn exp(&self, v: f32) -> f32 {
        v.exp()
    }
    fn pow(&self, base: f32, exponent: f32) -> f32 {
        base.powf(exponent)
    }
    fn powi(&self, base: f32, exponent: i32) -> f32 {
        base.powi(exponent)
    }
    fn hundredths(&self, v: f32) -> i64 {
        (v * 100.0).round() as i64
    }
    fn quartiles(&self, list: &[f32]) -> (f32, f32, f32) {
        let mut digest = TDigest::new_with_size(100);
        for v in list {
            digest = digest.merge_unsorted(vec![*v as f64]);
        }
        (
            digest.estimate_quantile(0.25) as f32,
            digest.estimate_quantile(0.50) as f32,
            digest.estimate_quantile(0.75) as f32,
        )
    }
    fn show(&self, v: f32) -> String {
        format!("{}", v)
    }
    fn fixed(&self, v: f32, digits: usize) -> String {
        format!("{:.1$}", v, digits)
    }
    fn largest(&self) -> f32 {
        f32::MAX
    }
}

#[test]
fn test_param_bounds_continuous() {
    let bounds = ParamBounds::<f32>::continuous(0.0, 1.0);
    assert_eq!(bounds.clamp(-0.5, &Floats), 0.0);
    assert_eq!(bounds.clamp(0.5, &Floats), 0.5);
    assert_eq!(bounds.clamp(1.5, &Floats), 1.0);
    assert!(bounds.contains(0.5, &Floats));
    assert!(!bounds.contains(-0.1, &Floats));
    assert!(!bounds.is_log_scale());
}

#[test]
fn test_param_bounds_log_continuous() {
    let bounds = ParamBounds::<f32>::log_continuous(0.01, 1.0);
    assert!(bounds.is_log_scale());
    assert_eq!(bounds.min_value(&Floats), 0.01);
    assert_eq!(bounds.max_value(&Floats), 1.0);
}

#[test]
fn test_param_bounds_discrete() {
    let bounds = ParamBounds::<f32>::discrete(2, 10);
    assert_eq!(bounds.clamp(1.0, &Floats), 2.0);
    assert_eq!(bounds.clamp(5.0, &Floats), 5.0);
    assert_eq!(bounds.clamp(15.0, &Floats), 10.0);
    assert!(!bounds.is_log_scale());
}

#[test]
fn test_param_bounds_discrete_step() {
    let bounds = ParamBounds::<f32>::discrete_step(2, 10, 2);
    // Value 5 should round down to 4 (nearest step from 2)
    assert_eq!(bounds.clamp(5.0, &Floats), 4.0);
    assert_eq!(bounds.clamp(6.0, &Floats), 6.0);
}

#[test]
fn test_param_def() {
    let mut param = ParamDef::new("test", ParamBounds::<f32>::continuous(0.0, 1.0), 0.5, &Floats);
    assert_eq!(param.name, "test");
    assert_eq!(param.center, 0.5);

    param.set_center(2.0, &Floats); // Out of bounds
    assert_eq!(param.center, 1.0); // Clamped
}

#[test]
fn test_parameter_space_default() {
    let space = ParameterSpace::<f32>::default_regression(&Floats);
    assert_eq!(space.len(), 5);
    assert!(space.get("max_depth").is_some());
    assert!(space.get("learning_rate").is_some());
    assert!(space.get("subsample").is_some());
    assert!(space.get("lambda").is_some());
    assert!(space.get("entropy_weight").is_some());
}

#[test]
fn test_parameter_space_with_param() {
    let space = ParameterSpace::<f32>::minimal(&Floats)
        .with_param("colsample", ParamBounds::<f32>::continuous(0.5, 1.0), 0.8, &Floats);

    assert_eq!(space.len(), 3);
    assert!(space.get("colsample").is_some());
}

#[test]
fn test_parameter_space_without_param() {
    let space = ParameterSpace::<f32>::default_regression(&Floats).without_param("entropy_weight");

    assert_eq!(space.len(), 4);
    assert!(space.get("entropy_weight").is_none());
}

#[test]
fn test_parameter_space_centers() {
    let mut space = ParameterSpace::<f32>::minimal(&Floats);
    let centers = space.centers();
    assert_eq!(centers.get("max_depth"), Some(&6.0));
    assert_eq!(centers.get("learning_rate"), Some(&0.1));

    let mut new_centers = TextMap::<f32>::new();
    new_centers.insert("max_depth", 8.0);
    space.set_centers(&new_centers, &Floats);
    assert_eq!(space.get("max_depth").unwrap().center, 8.0);
}

#[test]
fn test_parameter_space_validate() {
    let valid = ParameterSpace::<f32>::default_regression(&Floats);
    assert!(valid.validate().is_ok());

    let invalid = ParameterSpace::<f32>::new()
        .with_param("invalid_param", ParamBounds::<f32>::continuous(0.0, 1.0), 0.5, &Floats);
    assert!(invalid.validate().is_err());
}

#[test]
fn test_eval_strategy() {
    let holdout = EvalStrategy::<f32>::holdout(0.2);
    assert!(holdout.validate(&Floats).is_ok());

    let kfold = EvalStrategy::<f32>::kfold(5);
    assert!(kfold.validate(&Floats).is_ok());

    let invalid_holdout = EvalStrategy::<f32>::holdout(1.5);
    assert!(invalid_holdout.validate(&Floats).is_err());

    let invalid_kfold = EvalStrategy::<f32>::kfold(1);
    assert!(invalid_kfold.validate(&Floats).is_err());
}

#[test]
fn test_eval_strategy_auto() {
    assert!(matches!(EvalStrategy::<f32>::auto(500), EvalStrategy::KFold { k: 5 }));
    assert!(matches!(EvalStrategy::<f32>::auto(2000), EvalStrategy::KFold { k: 3 }));
    assert!(matches!(EvalStrategy::<f32>::auto(10000), EvalStrategy::Holdout { .. }));
}

#[test]
fn test_grid_strategy() {
    let cart = GridStrategy::cartesian(3);
    assert_eq!(cart.num_candidates(5), 243); // 3^5

    let lhs = GridStrategy::lhs(50);
    assert_eq!(lhs.num_candidates(5), 50);

    let rand = GridStrategy::random(100);
    assert_eq!(rand.num_candidates(5), 100);
}

#[test]
fn test_grid_strategy_validate() {
    assert!(GridStrategy::cartesian(3).validate().is_ok());
    assert!(GridStrategy::cartesian(1).validate().is_err());
    assert!(GridStrategy::lhs(0).validate().is_err());
}

#[test]
fn test_tuner_config_default() {
    let config = TunerConfig::<f32>::new(&Floats);
    assert_eq!(config.n_iterations, 3);
    assert_eq!(config.initial_spread, 0.5);
    assert_eq!(config.zoom_factor, 0.5);
    assert!(config.validate(&Floats).is_ok());
}

#[test]
fn test_tuner_config_quick() {
    let config = TunerConfig::<f32>::quick(&Floats);
    assert_eq!(config.n_iterations, 2);
    assert_eq!(config.num_rounds, 50);
}

#[test]
fn test_tuner_config_thorough() {
    let config = TunerConfig::<f32>::thorough(&Floats);
    assert_eq!(config.n_iterations, 5);
    assert_eq!(config.num_rounds, 200);
}

#[test]
fn test_tuner_config_builders() {
    let config = TunerConfig::<f32>::new(&Floats)
        .with_iterations(5)
        .with_num_rounds(200)
        .with_seed(123)
        .with_verbose(false);

    assert_eq!(config.n_iterations, 5);
    assert_eq!(config.num_rounds, 200);
    assert_eq!(config.seed, 123);
    assert!(!config.verbose);
}

#[test]
fn test_tuner_config_spread_for_iteration() {
    let config = TunerConfig::<f32>::new(&Floats);
    assert_eq!(config.spread_for_iteration(0, &Floats), 0.5);
    assert_eq!(config.spread_for_iteration(1, &Floats), 0.25);
    assert_eq!(config.spread_for_iteration(2, &Floats), 0.125);
}

#[test]
fn test_tuner_config_estimated_trials() {
    let config = TunerConfig::<f32>::new(&Floats);
    // 3^5 = 243 candidates per iteration * 3 iterations = 729
    assert_eq!(config.estimated_trials(), 729);
}

#[test]
fn test_tuner_config_validate() {
    assert!(TunerConfig::<f32>::new(&Floats).validate(&Floats).is_ok());

    let invalid = TunerConfig::<f32>::new(&Floats).with_iterations(0);
    assert!(invalid.validate(&Floats).is_err());

    let invalid = TunerConfig::<f32>::new(&Floats).with_initial_spread(0.0);
    assert!(invalid.validate(&Floats).is_err());

    let invalid = TunerConfig::<f32>::new(&Floats).with_zoom_factor(1.0);
    assert!(invalid.validate(&Floats).is_err());

    let invalid = TunerConfig::<f32>::new(&Floats).with_num_rounds(0);
    assert!(invalid.validate(&Floats).is_err());
}

#[test]
fn test_metric_lower_is_better() {
    assert!(Metric::<f32>::Mse.lower_is_better());
    assert!(Metric::<f32>::Rmse.lower_is_better());
    assert!(Metric::<f32>::Mae.lower_is_better());
    assert!(Metric::<f32>::BinaryLogLoss.lower_is_better());
    assert!(Metric::<f32>::multi_class_log_loss(3).lower_is_better());
    assert!(!Metric::<f32>::accuracy().lower_is_better());
}

#[test]
fn test_mse() {
    let predictions = vec![1.0, 2.0, 3.0, 4.0];
    let targets = vec![1.0, 2.0, 3.0, 4.0];
    let mse = Metric::<f32>::Mse.compute(&predictions, &targets, &Floats);
    assert!((mse - 0.0).abs() < 1e-6);

    let predictions = vec![2.0, 3.0, 4.0, 5.0];
    let targets = vec![1.0, 2.0, 3.0, 4.0];
    let mse = Metric::<f32>::Mse.compute(&predictions, &targets, &Floats);
    assert!((mse - 1.0).abs() < 1e-6);
}

#[test]
fn test_rmse() {
    let predictions = vec![2.0, 3.0, 4.0, 5.0];
    let targets = vec![1.0, 2.0, 3.0, 4.0];
    let rmse = Metric::<f32>::Rmse.compute(&predictions, &targets, &Floats);
    assert!((rmse - 1.0).abs() < 1e-6);
}

#[test]
fn test_mae() {
    let predictions = vec![2.0, 3.0, 4.0, 5.0];
    let targets = vec![1.0, 2.0, 3.0, 4.0];
    let mae = Metric::<f32>::Mae.compute(&predictions, &targets, &Floats);
    assert!((mae - 1.0).abs() < 1e-6);
}

#[test]
fn test_binary_log_loss() {
    // Perfect predictions should have very low loss
    let predictions = vec![10.0, 10.0, -10.0, -10.0]; // After sigmoid: ~1, ~1, ~0, ~0
    let targets = vec![1.0, 1.0, 0.0, 0.0];
    let loss = Metric::<f32>::BinaryLogLoss.compute(&predictions, &targets, &Floats);
    assert!(loss < 0.001);

    // Wrong predictions should have high loss
    let predictions = vec![-10.0, -10.0, 10.0, 10.0]; // After sigmoid: ~0, ~0, ~1, ~1
    let targets = vec![1.0, 1.0, 0.0, 0.0];
    let loss = Metric::<f32>::BinaryLogLoss.compute(&predictions, &targets, &Floats);
    assert!(loss > 5.0);
}

#[test]
fn test_binary_log_loss_numerical_stability() {
    // Extreme values should not produce NaN or Inf
    let predictions = vec![1000.0, -1000.0, 0.0];
    let targets = vec![1.0, 0.0, 0.5];
    let loss = Metric::<f32>::BinaryLogLoss.compute(&predictions, &targets, &Floats);
    assert!(loss.is_finite());
}

#[test]
fn test_multi_class_log_loss() {
    // 3 classes, 2 samples
    // Sample 0: true class = 0, logits = [10, 0, 0] -> should predict class 0
    // Sample 1: true class = 2, logits = [0, 0, 10] -> should predict class 2
    let predictions = vec![
        10.0, 0.0, 0.0, // Sample 0
        0.0, 0.0, 10.0, // Sample 1
    ];
    let targets = vec![0.0, 2.0];
    let loss = Metric::<f32>::multi_class_log_loss(3).compute(&predictions, &targets, &Floats);
    assert!(loss < 0.001, "Expected loss < 0.001, got {}", loss);

    // Wrong predictions
    let predictions = vec![
        0.0, 0.0, 10.0, // Sample 0: predicts class 2
        10.0, 0.0, 0.0, // Sample 1: predicts class 0
    ];
    let targets = vec![0.0, 2.0];
    let loss = Metric::<f32>::multi_class_log_loss(3).compute(&predictions, &targets, &Floats);
    assert!(loss > 5.0);
}

#[test]
fn test_accuracy() {
    // Perfect predictions
    let predictions = vec![10.0, 10.0, -10.0, -10.0];
    let targets = vec![1.0, 1.0, 0.0, 0.0];
    let acc = Metric::<f32>::accuracy().compute(&predictions, &targets, &Floats);
    assert!((acc - 1.0).abs() < 1e-6);

    // All wrong
    let predictions = vec![-10.0, -10.0, 10.0, 10.0];
    let targets = vec![1.0, 1.0, 0.0, 0.0];
    let acc = Metric::<f32>::accuracy().compute(&predictions, &targets, &Floats);
    assert!((acc - 0.0).abs() < 1e-6);

    // 50% correct
    let predictions = vec![10.0, -10.0, 10.0, -10.0];
    let targets = vec![1.0, 1.0, 0.0, 0.0];
    let acc = Metric::<f32>::accuracy().compute(&predictions, &targets, &Floats);
    assert!((acc - 0.5).abs() < 1e-6);
}

#[test]
fn test_empty_input() {
    let empty: Vec<f32> = vec![];
    assert_eq!(Metric::<f32>::Mse.compute(&empty, &empty, &Floats), f32::INFINITY);
}

#[test]
fn test_mismatched_lengths() {
    let predictions = vec![1.0, 2.0];
    let targets = vec![1.0];
    assert_eq!(Metric::<f32>::Mse.compute(&predictions, &targets, &Floats), f32::INFINITY);
}

#[test]
fn test_metric_name() {
    assert_eq!(Metric::<f32>::Mse.name(), "mse");
    assert_eq!(Metric::<f32>::Rmse.name(), "rmse");
    assert_eq!(Metric::<f32>::Mae.name(), "mae");
    assert_eq!(Metric::<f32>::BinaryLogLoss.name(), "binary_log_loss");
    assert_eq!(Metric::<f32>::multi_class_log_loss(3).name(), "multi_class_log_loss");
    assert_eq!(Metric::<f32>::accuracy().name(), "accuracy");
}

#[test]
fn test_sigmoid() {
    assert!((sigmoid::<f32, Floats>(0.0, &Floats) - 0.5).abs() < 1e-6);
    assert!(sigmoid::<f32, Floats>(10.0, &Floats) > 0.999);
    assert!(sigmoid::<f32, Floats>(-10.0, &Floats) < 0.001);
    // Test numerical stability with extreme values
    assert!(sigmoid::<f32, Floats>(1000.0, &Floats).is_finite());
    assert!(sigmoid::<f32, Floats>(-1000.0, &Floats).is_finite());
}

#[test]
fn discrete_values_lie_on_the_grid() {
    let bounds = ParamBounds::<f32>::discrete_step(1, 10, 4);
    for (given, held) in [(0.0, 1.0), (4.9, 1.0), (5.0, 5.0), (9.0, 9.0), (50.0, 9.0)] {
        assert_eq!(bounds.clamp(given, &Floats), held);
        assert_eq!(bounds.clamp(held, &Floats), held);
    }
    assert_eq!(bounds.min_value(&Floats), 1.0);
    assert_eq!(bounds.max_value(&Floats), 10.0);
}

#[test]
fn spaces_answer_for_their_parameters() {
    let mut space = ParameterSpace::<f32>::new();
    assert!(space.is_empty());
    space = space.with_param("lambda", ParamBounds::continuous(0.0, 10.0), 20.0, &Floats);
    assert_eq!(space.get("lambda").unwrap().center, 10.0);
    space = space.with_param("lambda", ParamBounds::continuous(0.0, 1.0), 0.5, &Floats);
    assert_eq!(space.len(), 1);
    space.get_mut("lambda").unwrap().set_center(-1.0, &Floats);
    assert_eq!(space.params()[0].center, 0.0);
    assert!(space.get_mut("depth").is_none());
    assert_eq!(ParameterSpace::<f32>::default_classification(&Floats).len(), 5);
}

#[test]
fn unknown_parameters_are_named() {
    let space = ParameterSpace::<f32>::new().with_param(
        "depht",
        ParamBounds::discrete(1, 3),
        2.0,
        &Floats,
    );
    let complaint = space.validate().unwrap_err();
    assert!(complaint.contains("depht"));
    assert!(complaint.contains("max_depth"));
}

#[test]
fn text_maps_hold_one_value_per_name() {
    let mut map: TextMap<u32> = TextMap::new();
    assert!(!map.insert("b", 1));
    assert!(!map.insert("a", 2));
    assert!(map.insert("b", 3));
    assert_eq!(map.len(), 2);
    assert_eq!(map.keys(), vec!["a", "b"]);
    assert_eq!(map.get("b"), Some(&3));
    assert_eq!(map.get("c"), None);
    assert!(map.contains_key("a"));
    let again = map.copy();
    assert_eq!(again.get("a"), Some(&2));
}

#[test]
fn every_complaint_about_a_tuner() {
    let usual = || TunerConfig::<f32>::new(&Floats);
    let unknown = usual().with_space(ParameterSpace::new().with_param(
        "depht",
        ParamBounds::discrete(1, 3),
        2.0,
        &Floats,
    ));
    assert!(unknown.validate(&Floats).unwrap_err().contains("depht"));
    let wide = usual().with_initial_spread(1.5);
    assert!(wide.validate(&Floats).is_err());
    let grid = usual().with_grid_strategy(GridStrategy::cartesian(1));
    assert_eq!(
        grid.validate(&Floats).unwrap_err(),
        GridStrategy::cartesian(1).validate().unwrap_err()
    );
    let folds = usual().with_eval_strategy(EvalStrategy::kfold(1));
    assert_eq!(
        folds.validate(&Floats).unwrap_err(),
        EvalStrategy::<f32>::kfold(1).validate(&Floats).unwrap_err()
    );
    let patient = usual().with_early_stopping(7).with_parallel(true).with_n_parallel(3);
    assert_eq!(patient.early_stopping_rounds, 7);
    assert_eq!(patient.n_parallel, 3);
    assert!(patient.parallel_trials);
}

#[test]
fn candidates_do_not_overflow() {
    assert_eq!(GridStrategy::cartesian(10).num_candidates(3), 1000);
    assert_eq!(GridStrategy::cartesian(7).num_candidates(0), 1);
    assert!(GridStrategy::random(0).validate().is_err());
    assert!(GridStrategy::default().validate().is_ok());
}

#[test]
fn metrics_have_exact_values() {
    let predictions: Vec<f32> = vec![1.0, 3.0];
    let targets: Vec<f32> = vec![0.0, 0.0];
    assert_eq!(Metric::mse().compute(&predictions, &targets, &Floats), 5.0);
    assert_eq!(Metric::mae().compute(&predictions, &targets, &Floats), 2.0);
    assert_eq!(
        Metric::rmse().compute(&[3.0f32, 3.0], &targets, &Floats),
        3.0
    );
    let even = Metric::<f32>::binary_log_loss().compute(&[0.0, 0.0], &[1.0, 0.0], &Floats);
    assert!((even - 2.0f32.ln()).abs() < 1e-6);
    let even = Metric::<f32>::multi_class_log_loss(4).compute(&[0.0; 4], &[3.0], &Floats);
    assert!((even - 4.0f32.ln()).abs() < 1e-6);
    let strict = Metric::<f32>::accuracy_with_threshold(0.9);
    assert_eq!(strict.compute(&[1.0, 5.0], &[1.0, 1.0], &Floats), 0.5);
    assert!(matches!(Metric::<f32>::default(), Metric::Mse));
}

#[test]
fn metrics_follow_the_loss() {
    assert!(matches!(
        Metric::<f32>::from_loss_type("binary_log_loss"),
        Metric::BinaryLogLoss
    ));
    assert!(matches!(
        Metric::<f32>::from_loss_type("something else"),
        Metric::Mse
    ));
}

#[test]
fn strategy_follows_the_number_of_samples() {
    for (n, folds) in [(0, Some(5)), (999, Some(5)), (1000, Some(3)), (5000, Some(3)), (5001, None)] {
        match (EvalStrategy::<f32>::auto(n), folds) {
            (EvalStrategy::KFold { k }, Some(folds)) => assert_eq!(k, folds),
            (EvalStrategy::Holdout { validation_ratio }, None) => assert_eq!(validation_ratio, 0.2),
            _ => panic!("another strategy suits {} samples", n),
        }
    }
}

#[test]
fn bounds_contain_what_lies_between_their_ends() {
    let bounds = ParamBounds::<f32>::discrete(2, 10);
    for (v, inside) in [(1.9, false), (2.0, true), (3.5, true), (10.0, true), (10.5, false)] {
        assert_eq!(bounds.contains(v, &Floats), inside);
    }
    let bounds = ParamBounds::<f32>::continuous(0.5, 1.5);
    for (v, inside) in [(0.4, false), (0.5, true), (1.5, true), (1.6, false)] {
        assert_eq!(bounds.contains(v, &Floats), inside);
    }
}
