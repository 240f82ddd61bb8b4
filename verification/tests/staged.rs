use tdigest::TDigest;
use treeboost::bindings::{check_feature_count, config_repr, model_repr, parse_constraints};
use treeboost::error::{Result, TreeBoostError};
use treeboost::functions::Functions;
use treeboost::tree::split::MonotonicConstraint;
use treeboost::tuner::ltt::{
    LinearHyperparams, LinearHyperparamsPreset, LttPresets, LttRules, LttTunerConfig,
    LttTunerPreset, LttTuningResult, TreeHyperparams, TreeHyperparamsPreset,
};
use treeboost::tuner::ltt_tuner::{
    elapsed, extract_split, residuals, select_shrinkage_factor, tune_tree_phase, DataSplit,
    LinearEvalResult, LinearQuery, LttTuner,
};

/// The functions of the numbers of type `f32`.
struct Floats;

impl Functions<f32> for Floats {
    fn count(&self, n: usize) -> f32 {
        n as f32
    }
    fn whole(&self, v: f32) -> usize {
        v as usize
    }
    fn round(&self, v: f32) -> f32 {
        v.round()
    }
    fn ceil(&self, v: f32) -> f32 {
        v.ceil()
    }
    fn root(&self, v: f32) -> f32 {
        v.sqrt()
    }
    fn ln(&self, v: f32) -> f32 {
        v.ln()
    }
    fn log2(&self, v: f32) -> f32 {
        v.log2()
    }
    fn exp(&self, v: f32) -> f32 {
        v.exp()
    }
    fn pow(&self, base: f32, exponent: f32) -> f32 {
        base.powf(exponent)
    }
    fn powi(&self, base: f32, exponent: i32) -> f32 {
        base.powi(exponent)
    }
    fn hundredths(&self, v: f32) -> i64 {
        (v * 100.0).round() as i64
    }
    fn quartiles(&self, list: &[f32]) -> (f32, f32, f32) {
        let mut digest = TDigest::new_with_size(100);
        for v in list {
            digest = digest.merge_unsorted(vec![*v as f64]);
        }
        (
            digest.estimate_quantile(0.25) as f32,
            digest.estimate_quantile(0.50) as f32,
            digest.estimate_quantile(0.75) as f32,
        )
    }
    fn show(&self, v: f32) -> String {
        format!("{}", v)
    }
    fn fixed(&self, v: f32, digits: usize) -> String {
        format!("{:.1$}", v, digits)
    }
    fn largest(&self) -> f32 {
        f32::MAX
    }
}

fn rules() -> LttRules<f32> {
    LttRules {
        default_shrinkage: 0.7,
        strong_linear_r2: 0.6,
        weak_linear_r2: 0.3,
        high_shrinkage_min: 0.5,
        low_shrinkage_max: 0.7,
        high_variance_threshold: 1.0,
        depth_weight_high_var: 0.1,
        rounds_weight_high_var: 0.001,
        lr_penalty_high_var: 1.0,
        depth_weight_low_var: -0.1,
        lr_weight_low_var: 1.0,
        rounds_penalty_low_var: 0.001,
        max_depth_threshold: 8,
        min_lr_threshold: 0.02,
        extreme_config_penalty: 0.5,
    }
}

fn grid(lambdas: Vec<f32>, depths: Vec<u32>) -> LttTunerConfig<f32> {
    LttTunerConfig {
        val_ratio: 0.2,
        lambda_values: lambdas,
        l1_ratio_values: vec![0.0, 0.5],
        max_depth_values: depths,
        learning_rate_values: vec![0.05, 0.1],
        num_rounds_values: vec![100, 500],
        shrinkage_factor_values: vec![0.3, 0.5, 0.7, 0.9],
        extrapolation_damping_values: vec![0.0, 0.1],
        enable_joint_refinement: true,
        seed: 42,
    }
}

fn standard() -> LttTunerConfig<f32> {
    grid(vec![0.1, 1.0, 10.0], vec![4, 6, 8])
}

fn presets() -> LttPresets<f32> {
    LttPresets {
        standard: standard(),
        quick: grid(vec![1.0], vec![4]),
        thorough: grid(vec![0.01, 0.1, 1.0, 10.0], vec![3, 4, 6, 8]),
        linear: LinearHyperparams::usual(0.7),
        tree: TreeHyperparams::usual(),
    }
}

fn tuner(config: LttTunerConfig<f32>) -> LttTuner<f32> {
    LttTuner::new(config, rules(), TreeHyperparams::usual())
}

/// Fits a line through one column by least squares, shrunk by `lambda`.
fn fit_line(query: LinearQuery<f32>, split: &DataSplit<f32>) -> Result<LinearEvalResult<f32>> {
    let n = split.train_targets.len() as f32;
    let xs = &split.train_features;
    let ys = &split.train_targets;
    let mx = xs.iter().sum::<f32>() / n;
    let my = ys.iter().sum::<f32>() / n;
    let mut sxy = 0.0;
    let mut sxx = query.lambda;
    for (x, y) in xs.iter().zip(ys) {
        sxy += (x - mx) * (y - my);
        sxx += (x - mx) * (x - mx);
    }
    let slope = sxy / sxx;
    let at = |x: &f32| my + slope * (x - mx);
    let val_preds: Vec<f32> = split.val_features.iter().map(at).collect();
    let mv = split.val_targets.iter().sum::<f32>() / split.val_targets.len() as f32;
    let mut res = 0.0;
    let mut tot = 0.0;
    for (p, y) in val_preds.iter().zip(&split.val_targets) {
        res += (y - p) * (y - p);
        tot += (y - mv) * (y - mv);
    }
    Ok(LinearEvalResult {
        train_preds: xs.iter().map(at).collect(),
        rmse: (res / val_preds.len() as f32).sqrt(),
        r2: 1.0 - res / tot,
        val_preds,
    })
}

fn deviation(list: &[f32]) -> f32 {
    let n = list.len() as f32;
    let mean = list.iter().sum::<f32>() / n;
    (list.iter().map(|v| (v - mean) * (v - mean)).sum::<f32>() / n).sqrt()
}

fn range(list: &[f32]) -> f32 {
    list.iter().fold(f32::NEG_INFINITY, |a, b| a.max(*b))
        - list.iter().fold(f32::INFINITY, |a, b| a.min(*b))
}

fn tune(
    tuner: &LttTuner<f32>,
    features: &[f32],
    num_features: usize,
    targets: &[f32],
) -> Result<LttTuningResult<f32>> {
    tuner.tune(
        features,
        num_features,
        targets,
        &fit_line,
        &deviation,
        &range,
        &|| 0u64,
        &Floats,
    )
}

#[test]
fn test_linear_hyperparams_default() {
    let params = LinearHyperparams::<f32>::usual(rules().default_shrinkage);
    assert_eq!(params.lambda, 1.0);
    assert_eq!(params.l1_ratio, 0.0);
    assert_eq!(params.shrinkage_factor, rules().default_shrinkage);
    assert_eq!(params.extrapolation_damping, 0.0);
}

#[test]
fn test_tree_hyperparams_default() {
    let params = TreeHyperparams::<f32>::usual();
    assert_eq!(params.max_depth, 6);
    assert_eq!(params.learning_rate, 0.1);
    assert_eq!(params.num_rounds, 500);
}

#[test]
fn test_ltt_tuner_config_presets() {
    let presets = presets();
    let quick = standard().with_preset(LttTunerPreset::Quick, &presets);
    let thorough = standard().with_preset(LttTunerPreset::Thorough, &presets);

    assert!(quick.lambda_values.len() < thorough.lambda_values.len());
    assert!(quick.max_depth_values.len() < thorough.max_depth_values.len());
}

#[test]
fn test_ltt_tuner_estimated_trials() {
    let config = standard();
    let linear_trials = config.lambda_values.len() * config.l1_ratio_values.len();
    let tree_trials = config.max_depth_values.len()
        * config.learning_rate_values.len()
        * config.num_rounds_values.len();
    let joint_trials = config.extrapolation_damping_values.len();

    assert_eq!(
        tuner(config).estimated_trials(),
        linear_trials + tree_trials + joint_trials
    );
}

#[test]
fn test_config_validation_empty_grids() {
    let mut config = standard();
    config.lambda_values = vec![];

    let result = config.validate(&Floats);
    assert!(result.is_err());
    assert!(result.unwrap_err().message().contains("lambda_values"));
}

#[test]
fn test_config_validation_bad_val_ratio() {
    let mut config = standard();
    config.val_ratio = 1.5;

    let result = config.validate(&Floats);
    assert!(result.is_err());
    assert!(result.unwrap_err().message().contains("val_ratio"));
}

#[test]
fn test_input_validation_empty_targets() {
    let features = vec![1.0, 2.0, 3.0];
    let targets: Vec<f32> = vec![];

    let result = tune(&tuner(standard()), &features, 1, &targets);
    assert!(result.is_err());
    assert!(result.unwrap_err().message().contains("empty"));
}

#[test]
fn test_input_validation_zero_features() {
    let features = vec![1.0, 2.0, 3.0];
    let targets = vec![1.0, 2.0, 3.0];

    let result = tune(&tuner(standard()), &features, 0, &targets);
    assert!(result.is_err());
    assert!(result.unwrap_err().message().contains("num_features"));
}

#[test]
fn test_input_validation_dimension_mismatch() {
    let features = vec![1.0, 2.0, 3.0];
    let targets = vec![1.0, 2.0];

    let result = tune(&tuner(standard()), &features, 1, &targets);
    assert!(result.is_err());
    assert!(result.unwrap_err().message().contains("mismatch"));
}

#[test]
fn test_ltt_tuner_tune() {
    let num_features = 1;
    let num_rows = 100;

    let mut features = Vec::with_capacity(num_rows * num_features);
    let mut targets = Vec::with_capacity(num_rows);

    for i in 0..num_rows {
        let x = (i as f32) / 10.0;
        features.push(x);
        targets.push(2.0 * x + 1.0 + (i as f32 % 3.0) * 0.1);
    }

    let config = standard().with_preset(LttTunerPreset::Quick, &presets());
    let result = tune(&tuner(config), &features, num_features, &targets)
        .expect("LTT tuner should successfully fit linear data");

    assert!(result.linear_r2 > 0.5);
    assert!(result.final_rmse < 5.0);
    assert!(!result.history.linear_trials.is_empty());
    assert!(!result.history.tree_trials.is_empty());
}

#[test]
fn test_linear_params_to_config() {
    let params = LinearHyperparams::<f32> {
        lambda: 0.5,
        l1_ratio: 0.3,
        shrinkage_factor: 0.8,
        extrapolation_damping: 0.1,
    };

    let config = params.to_config();

    assert!((config.lambda - 0.5).abs() < 1e-6);
    assert!((config.l1_ratio - 0.3).abs() < 1e-6);
    assert!((config.shrinkage_factor.unwrap() - 0.8).abs() < 1e-6);
    assert!((config.extrapolation_damping.unwrap() - 0.1).abs() < 1e-6);
}

#[test]
fn test_shrinkage_factor_selection_strong_linear() {
    let high_r2 = 0.8;
    let preds = vec![1.0, 2.0, 3.0, 4.0, 5.0];
    let targets = vec![1.0, 2.0, 3.0, 4.0, 5.0];

    let shrinkage =
        select_shrinkage_factor(&standard(), &rules(), high_r2, &preds, &targets, &Floats);
    assert!(shrinkage >= rules().high_shrinkage_min);
    assert_eq!(shrinkage, 0.9);
}

#[test]
fn test_shrinkage_factor_selection_weak_linear() {
    let low_r2 = 0.1;
    let preds = vec![5.0, 4.0, 3.0, 2.0, 1.0];
    let targets = vec![1.0, 2.0, 3.0, 4.0, 5.0];

    let shrinkage =
        select_shrinkage_factor(&standard(), &rules(), low_r2, &preds, &targets, &Floats);
    assert!(shrinkage <= rules().low_shrinkage_max);
}

#[test]
fn presets_fix_the_settings() {
    let ridge = LinearHyperparams::<f32>::usual(0.5);
    assert_eq!(ridge.with_preset(LinearHyperparamsPreset::Lasso).l1_ratio, 1.0);
    assert_eq!(
        ridge.with_preset(LinearHyperparamsPreset::ElasticNet).l1_ratio,
        0.5
    );
    assert_eq!(ridge.with_preset(LinearHyperparamsPreset::Ridge).l1_ratio, 0.0);
    let tree = TreeHyperparams::<f32>::usual();
    let careful = tree.with_preset(TreeHyperparamsPreset::Conservative);
    assert_eq!((careful.max_depth, careful.num_rounds), (4, 1000));
    assert_eq!(careful.learning_rate, 0.05);
    let bold = tree.with_preset(TreeHyperparamsPreset::Aggressive);
    assert_eq!((bold.max_depth, bold.num_rounds), (8, 500));
    let only = standard().with_preset(LttTunerPreset::ShrinkageOnly, &presets());
    assert_eq!(only.lambda_values, vec![1.0]);
    assert_eq!(only.max_depth_values, vec![6]);
    assert!(!only.enable_joint_refinement);
    assert_eq!(tuner(only).estimated_trials(), 2);
}

#[test]
fn every_empty_grid_is_named() {
    let check = |change: &dyn Fn(&mut LttTunerConfig<f32>), name: &str| {
        let mut config = standard();
        change(&mut config);
        match config.validate(&Floats) {
            Err(TreeBoostError::Config(m)) => assert!(m.contains(name)),
            _ => panic!("an empty grid must be refused"),
        }
    };
    check(&|c| c.l1_ratio_values.clear(), "l1_ratio_values");
    check(&|c| c.max_depth_values.clear(), "max_depth_values");
    check(&|c| c.learning_rate_values.clear(), "learning_rate_values");
    check(&|c| c.num_rounds_values.clear(), "num_rounds_values");
    check(&|c| c.shrinkage_factor_values.clear(), "shrinkage_factor_values");
    check(
        &|c| c.extrapolation_damping_values.clear(),
        "extrapolation_damping_values",
    );
    let mut without = standard();
    without.extrapolation_damping_values.clear();
    without.enable_joint_refinement = false;
    assert!(without.validate(&Floats).is_ok());
}

#[test]
fn the_last_rows_are_held_back() {
    let features: Vec<f32> = (0..10).map(|i| i as f32).collect();
    let targets: Vec<f32> = vec![0.0, 1.0, 2.0, 3.0, 4.0];
    let split = tuner(standard())
        .divide(&features, 2, &targets, &Floats)
        .unwrap();
    assert_eq!(split.train_targets, vec![0.0, 1.0, 2.0, 3.0]);
    assert_eq!(split.val_targets, vec![4.0]);
    assert_eq!(split.val_features, vec![8.0, 9.0]);
    let (rows, picked) = extract_split(&features, &targets, 2, &[4, 0]);
    assert_eq!(rows, vec![8.0, 9.0, 0.0, 1.0]);
    assert_eq!(picked, vec![4.0, 0.0]);

    let refused = tuner(standard()).divide(&[1.0], 1, &[1.0], &Floats);
    assert_eq!(
        refused.unwrap_err().message(),
        "Train/val split produced empty training set (val_ratio=0.2, num_rows=1)"
    );
}

#[test]
fn residuals_are_what_the_shrunk_line_leaves() {
    assert_eq!(
        residuals(&[3.0f32, 5.0], &[2.0, 4.0], 0.5),
        vec![2.0, 3.0]
    );
    assert_eq!(elapsed(5, 9), 4);
}

#[test]
fn noisy_residuals_ask_for_deeper_trees() {
    let usual = TreeHyperparams::<f32>::usual();
    let (noisy, trials) = tune_tree_phase(&standard(), &rules(), &usual, 2.0, 4.0, &Floats);
    assert_eq!(trials.len(), 12);
    assert_eq!(noisy.max_depth, 8);
    assert_eq!(noisy.num_rounds, 500);
    let (calm, _) = tune_tree_phase(&standard(), &rules(), &usual, 0.5, 4.0, &Floats);
    assert_eq!(calm.max_depth, 4);
    assert_eq!(calm.num_rounds, 100);
}

#[test]
fn a_linear_model_that_fails_stops_the_tuning() {
    let features: Vec<f32> = (0..10).map(|i| i as f32).collect();
    let targets = features.clone();
    let result = tuner(standard()).tune(
        &features,
        1,
        &targets,
        &|_: LinearQuery<f32>, _: &DataSplit<f32>| Err(TreeBoostError::Training("singular".into())),
        &deviation,
        &range,
        &|| 0u64,
        &Floats,
    );
    assert_eq!(result.unwrap_err().message(), "singular");
}

#[test]
fn constraint_codes_are_read() {
    let read = parse_constraints(&[1, 0, -1]).unwrap();
    assert_eq!(
        read,
        vec![
            MonotonicConstraint::Increasing,
            MonotonicConstraint::Unconstrained,
            MonotonicConstraint::Decreasing
        ]
    );
    assert_eq!(
        parse_constraints(&[0, 7]).unwrap_err(),
        "Constraint must be 1 (increasing), -1 (decreasing), or 0 (none)"
    );
    assert!(check_feature_count(3, 3).is_ok());
    let complaint = check_feature_count(3, 4).unwrap_err();
    assert!(complaint.contains('3') && complaint.contains('4'));
}

#[test]
fn values_for_python_describe_themselves() {
    let config = config_repr(100, 0.1f32, 6, 31, &Floats);
    assert!(config.starts_with("GBDTConfig("));
    assert!(config.contains("learning_rate=0.1"));
    let model = model_repr(5, 3, 0.5f32, &Floats);
    assert!(model.contains("num_trees=5") && model.contains("num_features=3"));
}

#[test]
fn presets_share_ratio_and_seed() {
    let mut presets = presets();
    presets.quick.val_ratio = 0.4;
    presets.quick.seed = 7;
    presets.quick.enable_joint_refinement = true;
    presets.thorough.enable_joint_refinement = false;
    for (preset, joint) in [
        (LttTunerPreset::Quick, false),
        (LttTunerPreset::Standard, true),
        (LttTunerPreset::Thorough, true),
        (LttTunerPreset::ShrinkageOnly, false),
    ] {
        let config = standard().with_preset(preset, &presets);
        assert_eq!(config.enable_joint_refinement, joint);
        assert_eq!(config.val_ratio, 0.2);
        assert_eq!(config.seed, 42);
    }
}

#[test]
fn settings_are_refused_before_the_data_are_divided() {
    let mut config = standard();
    config.val_ratio = 1.5;
    match tune(&tuner(config), &[1.0, 2.0], 1, &[1.0, 2.0]) {
        Err(TreeBoostError::Config(m)) => assert!(m.contains("val_ratio")),
        _ => panic!("more than all rows cannot be held back"),
    }
}

#[test]
fn joint_phase_takes_no_time_when_it_is_off() {
    let mut config = standard();
    config.enable_joint_refinement = false;
    let xs: Vec<f32> = (0..20).map(|i| i as f32).collect();
    let ys: Vec<f32> = xs.iter().map(|x| 2.0 * x + 1.0).collect();
    let ticks = std::cell::Cell::new(0u64);
    let clock = || {
        ticks.set(ticks.get() + 5);
        ticks.get()
    };
    let done = tuner(config)
        .tune(&xs, 1, &ys, &fit_line, &deviation, &range, &clock, &Floats)
        .unwrap();
    assert_eq!(done.phase_times.joint_phase, 0);
    assert!(done.phase_times.linear_phase > 0);
    assert!(done.history.joint_trials.is_empty());
}
