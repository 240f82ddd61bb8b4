use rand::rngs::StdRng;
use rand::seq::SliceRandom;
use rand::{Rng, SeedableRng};
use tdigest::TDigest;
use treeboost::error::TreeBoostError;
use treeboost::functions::Functions;
use treeboost::text_map::TextMap;
use treeboost::tuner::autotuner::{
    build_config, finish_trial, format_trial_metrics, is_gpu_backend, use_parallel, AutoTuner,
    BackendType, Draws, GBDTConfig, SearchState, StopReason, TuningMode,
};
use treeboost::tuner::cartesian::{all_rows, generate_cartesian_grid};
use treeboost::tuner::config::{EvalStrategy, GridStrategy, TunerConfig};
use treeboost::tuner::course::{
    calibration_share, choose_course, choose_interval_course, interval_settings_for, settings_for,
    Course,
};
use treeboost::tuner::evaluation::{
    aggregate_fold_results, check_conformal_support, compute_additional_metrics,
    compute_eval_metrics, compute_f1_score, compute_metrics_by_indices, conformal_metrics,
    evaluate_kfold, extract_conformal_result, pick, select_metric, uses_era_split, EvalMetrics,
    TaskType,
};
use treeboost::tuner::grid::{find_window, generate_param_values};
use treeboost::tuner::history::{OptimizationMetric, SearchHistory};
use treeboost::tuner::metrics::Metric;
use treeboost::tuner::realistic::collect_targets;
use treeboost::tuner::sampling::{
    latin_strata, lhs_intervals, randomize_centers, sample_value, sampled_candidates, zone_seed,
};
use treeboost::tuner::space::{ParamBounds, ParamDef, ParameterSpace};
use treeboost::tuner::trial::{iteration_file_name, table_header, table_row, TrialResult};

/// The functions of the numbers of type `f32`.
struct Floats;

impl Functions<f32> for Floats {
    fn count(&self, n: usize) -> f32 {
        n as f32
    }
    fn whole(&self, v: f32) -> usize {
        v as usize
    }
    fn round(&self, v: f32) -> f32 {
        v.round()
    }
    fn ceil(&self, v: f32) -> f32 {
        v.ceil()
    }
    fn root(&self, v: f32) -> f32 {
        v.sqrt()
    }
    fn ln(&self, v: f32) -> f32 {
        v.ln()
    }
    fn log2(&self, v: f32) -> f32 {
        v.log2()
    }
    fn exp(&self, v: f32) -> f32 {
        v.exp()
    }
    fn pow(&self, base: f32, exponent: f32) -> f32 {
        base.powf(exponent)
    }
    fn powi(&self, base: f32, exponent: i32) -> f32 {
        base.powi(exponent)
    }
    fn hundredths(&self, v: f32) -> i64 {
        (v * 100.0).round() as i64
    }
    fn quartiles(&self, list: &[f32]) -> (f32, f32, f32) {
        let mut digest = TDigest::new_with_size(100);
        for v in list {
            digest = digest.merge_unsorted(vec![*v as f64]);
        }
        (
            digest.estimate_quantile(0.25) as f32,
            digest.estimate_quantile(0.50) as f32,
            digest.estimate_quantile(0.75) as f32,
        )
    }
    fn show(&self, v: f32) -> String {
        format!("{}", v)
    }
    fn fixed(&self, v: f32, digits: usize) -> String {
        format!("{:.1$}", v, digits)
    }
    fn largest(&self) -> f32 {
        f32::MAX
    }
}

impl Functions<f64> for Floats {
    fn count(&self, n: usize) -> f64 {
        n as f64
    }
    fn whole(&self, v: f64) -> usize {
        v as usize
    }
    fn round(&self, v: f64) -> f64 {
        v.round()
    }
    fn ceil(&self, v: f64) -> f64 {
        v.ceil()
    }
    fn root(&self, v: f64) -> f64 {
        v.sqrt()
    }
    fn ln(&self, v: f64) -> f64 {
        v.ln()
    }
    fn log2(&self, v: f64) -> f64 {
        v.log2()
    }
    fn exp(&self, v: f64) -> f64 {
        v.exp()
    }
    fn pow(&self, base: f64, exponent: f64) -> f64 {
        base.powf(exponent)
    }
    fn powi(&self, base: f64, exponent: i32) -> f64 {
        base.powi(exponent)
    }
    fn hundredths(&self, v: f64) -> i64 {
        (v * 100.0).round() as i64
    }
    fn quartiles(&self, list: &[f64]) -> (f64, f64, f64) {
        let mut digest = TDigest::new_with_size(100);
        for v in list {
            digest = digest.merge_unsorted(vec![*v]);
        }
        (
            digest.estimate_quantile(0.25),
            digest.estimate_quantile(0.50),
            digest.estimate_quantile(0.75),
        )
    }
    fn show(&self, v: f64) -> String {
        format!("{}", v)
    }
    fn fixed(&self, v: f64, digits: usize) -> String {
        format!("{:.1$}", v, digits)
    }
    fn largest(&self) -> f64 {
        f64::MAX
    }
}

fn space_of(params: Vec<(&str, ParamBounds<f32>, f32)>) -> ParameterSpace<f32> {
    let mut space = ParameterSpace::new();
    for (name, bounds, center) in params {
        space = space.with_param(name, bounds, center, &Floats);
    }
    space
}

fn lhs_grid(
    space: &ParameterSpace<f32>,
    spread: f32,
    n_samples: usize,
    seed: u64,
) -> Vec<TextMap<f32>> {
    let (strata, generator) = latin_strata(space.len(), n_samples, seed);
    let mut rng = generator.into_rng();
    let limits: Vec<Vec<(f32, f32)>> = lhs_intervals(&strata, n_samples, &Floats);
    let draws: Vec<Vec<f32>> = limits
        .iter()
        .map(|row| row.iter().map(|(lo, hi)| rng.gen_range(*lo..*hi)).collect())
        .collect();
    sampled_candidates(space, spread, &draws, &Floats)
}

fn random_grid(
    space: &ParameterSpace<f32>,
    spread: f32,
    n_samples: usize,
    seed: u64,
) -> Vec<TextMap<f32>> {
    let mut rng = StdRng::seed_from_u64(seed);
    let draws: Vec<Vec<f32>> = (0..n_samples)
        .map(|_| (0..space.len()).map(|_| rng.gen::<f32>()).collect())
        .collect();
    sampled_candidates(space, spread, &draws, &Floats)
}

fn base_config() -> GBDTConfig<f32> {
    GBDTConfig {
        max_depth: 6,
        learning_rate: 0.1,
        subsample: 1.0,
        colsample: 1.0,
        lambda: 1.0,
        entropy_weight: 0.0,
        min_samples_leaf: 1,
        min_hessian_leaf: 1.0,
        min_gain: 0.0,
        goss_top_rate: 0.2,
        goss_other_rate: 0.1,
        num_rounds: 100,
        early_stopping_rounds: 0,
        validation_ratio: 0.0,
    }
}

fn trial(id: usize, iteration: usize, val_loss: f32, depth: f32) -> TrialResult<f32, f64> {
    let mut params = TextMap::new();
    params.insert("max_depth", depth);
    TrialResult {
        trial_id: id,
        iteration,
        params,
        val_loss,
        train_loss: 0.4,
        num_trees: 100,
        train_time_ms: 1000,
        f1_score: None,
        roc_auc: None,
        rank_ic: None,
    }
}

#[test]
fn test_trial_result() {
    let mut params = TextMap::new();
    params.insert("max_depth", 6.0);
    params.insert("learning_rate", 0.1);

    let result: TrialResult<f32, f64> = TrialResult {
        trial_id: 0,
        iteration: 0,
        params,
        val_loss: 0.5,
        train_loss: 0.4,
        num_trees: 100,
        train_time_ms: 1000,
        f1_score: None,
        roc_auc: None,
        rank_ic: None,
    };

    assert_eq!(result.trial_id, 0);
    assert_eq!(result.val_loss, 0.5);
}

#[test]
fn test_search_history() {
    let mut history: SearchHistory<f32, f64> = SearchHistory::new();
    assert!(history.is_empty());

    history.add(trial(0, 0, 0.5, 6.0));

    assert_eq!(history.len(), 1);
    assert_eq!(history.best().unwrap().trial_id, 0);

    history.add(trial(1, 0, 0.3, 8.0));

    assert_eq!(history.len(), 2);
    assert_eq!(history.best().unwrap().trial_id, 1);
}

#[test]
fn test_search_history_to_json() {
    let mut history: SearchHistory<f32, f64> = SearchHistory::new();
    history.add(trial(0, 0, 0.5, 6.0));

    let json = history.to_json(&Floats);
    assert!(json.contains("\"trial_id\": 0"));
    assert!(json.contains("\"val_metric\": 0.5"));
    assert!(json.contains("\"best_trial_id\": 0"));
}

#[test]
fn test_autotuner_generate_param_values() {
    let param = ParamDef::new("test", ParamBounds::continuous(0.0, 1.0), 0.5, &Floats);
    let values: Vec<f32> = generate_param_values(&param, 0.5, 3, &Floats);
    assert_eq!(values.len(), 3);
    assert!(values[0] < values[1]);
    assert!(values[1] < values[2]);

    let param = ParamDef::new("depth", ParamBounds::discrete(2, 10), 6.0, &Floats);
    let values: Vec<f32> = generate_param_values(&param, 0.5, 3, &Floats);
    assert!(!values.is_empty());
    assert!(values.iter().all(|&v| v >= 2.0 && v <= 10.0));
}

#[test]
fn test_autotuner_generate_cartesian_grid() {
    let space = ParameterSpace::<f32>::minimal(&Floats);
    let grid = generate_cartesian_grid(&space, 0.5, 3, &Floats);
    assert_eq!(grid.len(), 9);

    for candidate in &grid {
        assert!(candidate.contains_key("max_depth"));
        assert!(candidate.contains_key("learning_rate"));
    }
}

#[test]
fn test_autotuner_build_config() {
    let mut params = TextMap::new();
    params.insert("max_depth", 8.0);
    params.insert("learning_rate", 0.05);

    let config = build_config(&base_config(), &params, 100, 10, 0.0, 0.2, &Floats);
    assert_eq!(config.max_depth, 8);
    assert_eq!(config.learning_rate, 0.05);
}

#[test]
fn test_discrete_grid_dedup() {
    let space = space_of(vec![("max_depth", ParamBounds::discrete(2, 10), 6.0)]);
    let values: Vec<f32> =
        generate_param_values(space.get("max_depth").unwrap(), 0.01, 3, &Floats);

    let mut sorted = values.clone();
    sorted.sort_by(|a, b| a.partial_cmp(b).unwrap_or(std::cmp::Ordering::Equal));
    sorted.dedup();
    assert_eq!(values.len(), sorted.len());
}

#[test]
fn test_grid_level_dedup() {
    let space = space_of(vec![
        ("max_depth", ParamBounds::discrete(2, 10), 6.0),
        ("min_samples_leaf", ParamBounds::discrete(1, 10), 5.0),
    ]);
    let grid = generate_cartesian_grid(&space, 0.05, 3, &Floats);

    let mut seen = std::collections::HashSet::new();
    for candidate in &grid {
        let key = format!("{:?}", candidate);
        assert!(seen.insert(key));
    }
}

fn same_grids(one: &[TextMap<f32>], two: &[TextMap<f32>]) -> bool {
    one.iter().zip(two.iter()).all(|(a, b)| {
        a.keys()
            .iter()
            .all(|k| (a.get(k).unwrap() - b.get(k).unwrap()).abs() < 1e-6)
    })
}

#[test]
fn test_lhs_determinism() {
    let space = space_of(vec![
        ("learning_rate", ParamBounds::log_continuous(0.01, 0.5), 0.1),
        ("max_depth", ParamBounds::discrete(2, 12), 6.0),
    ]);
    let grid1 = lhs_grid(&space, 0.5, 10, 42);
    let grid2 = lhs_grid(&space, 0.5, 10, 42);

    assert_eq!(grid1.len(), grid2.len());
    assert!(same_grids(&grid1, &grid2));
}

#[test]
fn test_lhs_sample_count() {
    let space = space_of(vec![
        ("learning_rate", ParamBounds::continuous(0.01, 0.5), 0.1),
        ("subsample", ParamBounds::continuous(0.5, 1.0), 0.8),
    ]);
    let grid = lhs_grid(&space, 1.0, 20, 123);
    assert_eq!(grid.len(), 20);

    let empty = lhs_grid(&space, 1.0, 0, 123);
    assert!(empty.is_empty());
}

#[test]
fn test_lhs_bounds_respected() {
    let space = space_of(vec![
        ("learning_rate", ParamBounds::continuous(0.01, 0.5), 0.1),
        ("max_depth", ParamBounds::discrete(2, 12), 6.0),
    ]);
    let grid = lhs_grid(&space, 1.0, 50, 999);

    for candidate in &grid {
        let lr = *candidate.get("learning_rate").unwrap();
        assert!(lr >= 0.01 && lr <= 0.5);

        let depth = *candidate.get("max_depth").unwrap();
        assert!(depth >= 2.0 && depth <= 12.0);
    }
}

#[test]
fn test_lhs_stratification() {
    let space = space_of(vec![("x", ParamBounds::continuous(0.0, 1.0), 0.5)]);
    let n_samples = 10;
    let grid = lhs_grid(&space, 1.0, n_samples, 12345);

    let values: Vec<f32> = grid.iter().map(|c| *c.get("x").unwrap()).collect();
    let mut stratum_counts = vec![0; n_samples];
    for &v in &values {
        let stratum = (v * n_samples as f32).floor() as usize;
        let stratum = stratum.min(n_samples - 1);
        stratum_counts[stratum] += 1;
    }
    for &count in &stratum_counts {
        assert_eq!(count, 1);
    }
}

#[test]
fn test_random_determinism() {
    let space = space_of(vec![
        ("learning_rate", ParamBounds::log_continuous(0.01, 0.5), 0.1),
        ("lambda", ParamBounds::continuous(0.0, 10.0), 1.0),
    ]);
    let grid1 = random_grid(&space, 0.5, 15, 42);
    let grid2 = random_grid(&space, 0.5, 15, 42);

    assert_eq!(grid1.len(), grid2.len());
    assert!(same_grids(&grid1, &grid2));
}

#[test]
fn test_random_sample_count() {
    let space = ParameterSpace::<f32>::minimal(&Floats);
    let grid = random_grid(&space, 1.0, 25, 777);
    assert_eq!(grid.len(), 25);

    let empty = random_grid(&space, 1.0, 0, 777);
    assert!(empty.is_empty());
}

#[test]
fn test_random_bounds_respected() {
    let space = space_of(vec![
        ("subsample", ParamBounds::continuous(0.5, 1.0), 0.8),
        ("entropy_weight", ParamBounds::continuous(0.0, 0.5), 0.1),
    ]);
    let grid = random_grid(&space, 1.0, 100, 888);

    for candidate in &grid {
        let ss = *candidate.get("subsample").unwrap();
        assert!(ss >= 0.5 && ss <= 1.0);

        let ew = *candidate.get("entropy_weight").unwrap();
        assert!(ew >= 0.0 && ew <= 0.5);
    }
}

#[test]
fn test_different_seeds_produce_different_results() {
    let space = ParameterSpace::<f32>::minimal(&Floats);
    let grid1 = lhs_grid(&space, 1.0, 5, 1);
    let grid2 = lhs_grid(&space, 1.0, 5, 2);
    assert!(!same_grids(&grid1, &grid2));
}

#[test]
fn test_log_scale_sampling() {
    let space = space_of(vec![(
        "learning_rate",
        ParamBounds::log_continuous(0.001, 1.0),
        0.1,
    )]);
    let grid = random_grid(&space, 1.0, 1000, 42);
    let values: Vec<f32> = grid
        .iter()
        .map(|c| *c.get("learning_rate").unwrap())
        .collect();

    let geo_mean = (0.001_f32 * 1.0).sqrt();
    let below = values.iter().filter(|&&v| v < geo_mean).count();
    let above = values.iter().filter(|&&v| v >= geo_mean).count();

    let ratio = below as f32 / (below + above) as f32;
    assert!(ratio > 0.4 && ratio < 0.6);
}

#[test]
fn test_spread_affects_range() {
    let space = space_of(vec![("x", ParamBounds::continuous(0.0, 1.0), 0.5)]);
    let range = |grid: &[TextMap<f32>]| -> f32 {
        let xs: Vec<f32> = grid.iter().map(|c| *c.get("x").unwrap()).collect();
        xs.iter().fold(0.0_f32, |a, b| a.max(*b)) - xs.iter().fold(1.0_f32, |a, b| a.min(*b))
    };
    let wide = range(&random_grid(&space, 1.0, 100, 42));
    let narrow = range(&random_grid(&space, 0.1, 100, 42));
    assert!(wide > narrow);
}

#[test]
fn test_is_gpu_backend() {
    assert!(is_gpu_backend(BackendType::Auto));
    assert!(is_gpu_backend(BackendType::Wgpu));
    assert!(is_gpu_backend(BackendType::Cuda));
    assert!(!is_gpu_backend(BackendType::Scalar));
    assert!(!is_gpu_backend(BackendType::Avx512));
    assert!(!is_gpu_backend(BackendType::Sve2));
}

#[test]
fn test_parallel_config_respected() {
    let config = TunerConfig::<f32>::new(&Floats)
        .with_parallel(true)
        .with_n_parallel(4);
    let tuner: AutoTuner<f32, f64> = AutoTuner::new(0.5, &Floats)
        .with_config(config, OptimizationMetric::ValidationLoss)
        .start(&Floats)
        .unwrap();
    assert!(tuner.config().parallel_trials);
    assert_eq!(tuner.config().n_parallel, 4);
}

#[test]
fn test_tuning_mode_variants() {
    let optimistic = TuningMode::Optimistic;
    let realistic = TuningMode::Realistic;
    assert!(matches!(optimistic, TuningMode::Optimistic));
    assert!(matches!(realistic, TuningMode::Realistic));
    assert!(realistic.is_realistic());
    assert!(use_parallel(true, BackendType::Scalar, optimistic));
    assert!(!use_parallel(true, BackendType::Cuda, optimistic));
    assert!(!use_parallel(false, BackendType::Scalar, optimistic));
}

#[test]
fn strata_are_shuffled_permutations() {
    let (strata, _) = latin_strata(3, 8, 7);
    let identity: Vec<usize> = (0..8).collect();
    assert!(strata.iter().any(|s| *s != identity));
    for s in &strata {
        let mut sorted = s.clone();
        sorted.sort();
        assert_eq!(sorted, identity);
    }
    let (again, _) = latin_strata(3, 8, 7);
    assert_eq!(again, strata);
    let (other, _) = latin_strata(3, 8, 8);
    assert!(other != strata);
}

#[test]
fn layers_touch() {
    let strata: Vec<Vec<usize>> = vec![vec![1, 0, 3, 2]];
    let limits: Vec<Vec<(f32, f32)>> = lhs_intervals(&strata, 4, &Floats);
    assert_eq!(
        limits,
        vec![
            vec![(0.25, 0.5)],
            vec![(0.0, 0.25)],
            vec![(0.75, 1.0)],
            vec![(0.5, 0.75)]
        ]
    );
}

#[test]
fn sampled_values_are_exact() {
    let param = ParamDef::new("x", ParamBounds::continuous(0.0, 8.0), 4.0, &Floats);
    assert_eq!(sample_value(&param, 0.5, 0.25, &Floats), 3.0);
    assert_eq!(find_window(4.0f32, 0.0, 8.0, 0.5), (2.0, 6.0));
    assert_eq!(find_window(7.0f32, 0.0, 8.0, 0.5), (5.0, 8.0));
    let depth = ParamDef::new("depth", ParamBounds::discrete(2, 10), 6.0, &Floats);
    assert_eq!(sample_value(&depth, 1.0, 1.0, &Floats), 10.0);
}

#[test]
fn centres_move_within_their_bounds() {
    let mut space = space_of(vec![
        ("x", ParamBounds::continuous(0.0, 8.0), 4.0),
        ("depth", ParamBounds::discrete(2, 10), 6.0),
    ]);
    randomize_centers(&mut space, &[0.5, 0.0], &Floats);
    assert_eq!(space.params()[0].center, 4.0);
    assert_eq!(space.params()[1].center, 2.0);
    assert!(zone_seed(5, 10) != zone_seed(5, 11));
}

#[test]
fn all_combinations_are_listed() {
    let lists: Vec<Vec<u8>> = vec![vec![1, 2], vec![3], vec![4, 5]];
    let rows = all_rows(&lists);
    assert_eq!(rows.len(), 4);
    for row in [vec![1, 3, 4], vec![1, 3, 5], vec![2, 3, 4], vec![2, 3, 5]] {
        assert!(rows.contains(&row));
    }
    let empty: Vec<Vec<u8>> = vec![];
    assert_eq!(all_rows(&empty), vec![Vec::<u8>::new()]);
}

#[test]
fn a_search_stops_after_its_rounds() {
    let mut state = SearchState::new();
    let first = state.advance(true, true, 2);
    assert!(first.stop.is_none() && !first.switch_zone);
    let second = state.advance(true, true, 2);
    assert!(second.stop.is_some());
}

#[test]
fn unbalanced_rounds_switch_zones_and_then_stop() {
    let mut state = SearchState::new();
    let mut switches = 0;
    let mut stopped = None;
    for _ in 0..20 {
        let decision = state.advance(false, false, 100);
        if decision.switch_zone {
            switches += 1;
        }
        if decision.stop.is_some() {
            stopped = decision.stop;
            break;
        }
    }
    assert_eq!(switches, 2);
    assert!(matches!(stopped, Some(StopReason::ZoneSwitchesFailed)));
}

#[test]
fn a_round_of_the_search() {
    let config = TunerConfig::<f32>::new(&Floats)
        .with_space(ParameterSpace::minimal(&Floats))
        .with_grid_strategy(GridStrategy::random(4))
        .with_seed(9);
    let mut tuner: AutoTuner<f32, f64> = AutoTuner::new(0.0, &Floats)
        .with_config(config, OptimizationMetric::ValidationLoss)
        .start(&Floats)
        .unwrap();
    assert_eq!(tuner.spread(&Floats), 0.5);
    match tuner.best_params() {
        Err(TreeBoostError::Training(_)) | Err(TreeBoostError::Config(_)) => {}
        _ => panic!("there is no best trial yet"),
    }
    let draws: Vec<Vec<f32>> = match tuner.plan_draws(&Floats) {
        Draws::Units {
            n_samples,
            n_params,
            generator,
        } => {
            let mut rng = generator.into_rng();
            (0..n_samples)
                .map(|_| (0..n_params).map(|_| rng.gen::<f32>()).collect())
                .collect()
        }
        _ => panic!("a random grid draws units"),
    };
    let grid = tuner.generate_grid(&draws, &Floats);
    assert_eq!(grid.len(), 4);
    for (i, params) in grid.into_iter().enumerate() {
        let id = tuner.next_id();
        assert_eq!(id, i);
        let metrics: EvalMetrics<f32, f64> = EvalMetrics {
            val_metric: 4.0 - i as f32,
            train_metric: 1.0,
            num_trees: 10,
            f1_score: None,
            roc_auc: None,
            rank_ic: None,
        };
        tuner.record(finish_trial(id, tuner.state.iteration, params, metrics, 5));
    }
    assert_eq!(tuner.history().best().unwrap().trial_id, 3);
    let decision = tuner.conclude_round(&Floats);
    assert!(decision.stop.is_none());
    assert_eq!(
        tuner.best_params().unwrap().get("max_depth"),
        tuner.history().best().unwrap().params.get("max_depth")
    );
    assert_eq!(
        Some(&tuner.config().space.get("learning_rate").unwrap().center),
        tuner.best_params().unwrap().get("learning_rate")
    );
}

#[test]
fn a_bad_search_is_refused() {
    let config = TunerConfig::<f32>::new(&Floats).with_num_rounds(0);
    let refused: Result<AutoTuner<f32, f64>, TreeBoostError> =
        AutoTuner::new(0.0, &Floats)
            .with_config(config, OptimizationMetric::ValidationLoss)
            .start(&Floats);
    match refused {
        Err(TreeBoostError::Config(_)) => {}
        _ => panic!("a search without rounds must be refused"),
    }
}

#[test]
fn a_search_is_set_up_step_by_step() {
    let tuner: AutoTuner<f32, f64> = AutoTuner::new(0.5, &Floats)
        .with_space(ParameterSpace::minimal(&Floats))
        .with_iterations(7)
        .with_eval_strategy(EvalStrategy::kfold(4))
        .with_parallel(true)
        .with_seed(11);
    assert_eq!(tuner.config().space.len(), 2);
    assert_eq!(tuner.config().n_iterations, 7);
    assert!(matches!(
        tuner.config().eval_strategy,
        EvalStrategy::KFold { k: 4 }
    ));
    assert!(tuner.config().parallel_trials);
    assert_eq!(tuner.config().seed, 11);
    assert!(tuner.history().is_empty());
}

#[test]
fn histories_compare_by_their_metric() {
    let mut by_auc: SearchHistory<f32, f64> =
        SearchHistory::with_metric(OptimizationMetric::RocAuc);
    let mut low = trial(0, 0, 0.1, 6.0);
    low.roc_auc = Some(0.6);
    let mut high = trial(1, 1, 0.9, 6.0);
    high.roc_auc = Some(0.8);
    assert!(by_auc.compare_trials(&high, &low));
    assert!(!by_auc.compare_trials(&low, &high));
    by_auc.add(high);
    by_auc.add(low);
    assert_eq!(by_auc.best().unwrap().trial_id, 1);
    assert_eq!(by_auc.trials_for_iteration(0).len(), 1);
    assert_eq!(by_auc.trials().len(), 2);
}

#[test]
fn improvement_is_a_new_best() {
    let mut history: SearchHistory<f32, f64> = SearchHistory::new();
    history.add(trial(0, 0, 0.5, 6.0));
    history.add(trial(1, 1, 0.6, 6.0));
    assert!(!history.improved(1));
    history.add(trial(2, 2, 0.4, 6.0));
    assert!(history.improved(2));
}

#[test]
fn history_json_is_exact_for_no_trials() {
    let history: SearchHistory<f32, f64> = SearchHistory::new();
    let json = history.to_json(&Floats);
    assert!(json.starts_with("{\n"));
    assert!(json.contains("null"));
}

#[test]
fn rows_of_the_trial_table() {
    let mut t = trial(3, 1, 0.25, 6.5);
    t.f1_score = Some(0.5);
    t.roc_auc = Some(0.75);
    let names = vec!["max_depth".to_string(), "lambda".to_string()];
    let header = table_header::<f32, f64>(&names);
    let row = table_row(&t, &names, &Floats, &Floats);
    assert_eq!(header.len(), row.len());
    assert_eq!(
        TrialResult::<f32, f64>::csv_headers().len() + 2,
        header.len()
    );
    assert_eq!(t.to_csv_row(&Floats, &Floats)[0], "3");
    assert!(row.contains(&"0.250000".to_string()));
    assert_eq!(t.param_to_csv("max_depth", &Floats), "6.500000");
    assert_eq!(
        t.param_to_csv("lambda", &Floats),
        row[row.len() - 1]
    );
    assert_eq!(iteration_file_name(2), "iteration_3.csv");
}

#[test]
fn f1_scores_are_exact() {
    // two hits, one false alarm, one miss
    let predictions: Vec<f32> = vec![3.0, 3.0, 3.0, -3.0];
    let targets: Vec<f32> = vec![1.0, 1.0, 0.0, 1.0];
    let f1 = compute_f1_score(
        TaskType::BinaryClassification,
        &predictions,
        &targets,
        &Floats,
    )
    .unwrap();
    assert!((f1 - 2.0 / 3.0).abs() < 1e-6);
    assert!(compute_f1_score(TaskType::Regression, &predictions, &targets, &Floats).is_none());
    assert!(matches!(
        select_metric::<f32>(TaskType::Regression),
        Metric::Mse
    ));
    assert!(matches!(
        select_metric::<f32>(TaskType::BinaryClassification),
        Metric::BinaryLogLoss
    ));
}

#[test]
fn metrics_at_some_places() {
    let predictions: Vec<f32> = vec![1.0, 2.0, 3.0];
    let targets: Vec<f32> = vec![0.0, 2.0, 1.0];
    assert_eq!(pick(&targets, &[2, 0]), vec![1.0, 0.0]);
    let roc = |_p: &[f32], _t: &[f32]| -> f64 { 0.5 };
    let ic = |_p: &[f32], _t: &[f32], _e: Option<&[u16]>| -> f64 { 0.25 };
    let (val, train, more) = compute_metrics_by_indices(
        TaskType::Regression,
        &predictions,
        &targets,
        &[1, 2],
        &[0],
        &Metric::mse(),
        None,
        &roc,
        &ic,
        &Floats,
    );
    assert_eq!(val, 1.0);
    assert_eq!(train, 2.0);
    assert!(more.0.is_none());
    let binary = compute_additional_metrics(
        TaskType::BinaryClassification,
        &[3.0f32],
        &[1.0f32],
        None,
        &roc,
        &ic,
        &Floats,
    );
    assert_eq!(binary.1, Some(0.5));
}

#[test]
fn folds_are_averaged() {
    let fold = |val: f32, trees: usize, f1: Option<f32>| -> EvalMetrics<f32, f64> {
        EvalMetrics {
            val_metric: val,
            train_metric: 2.0 * val,
            num_trees: trees,
            f1_score: f1,
            roc_auc: None,
            rank_ic: None,
        }
    };
    let all = aggregate_fold_results(
        &[fold(1.0, 10, Some(0.5)), fold(3.0, 21, None)],
        &Floats,
        &Floats,
    );
    assert_eq!(all.val_metric, 2.0);
    assert_eq!(all.train_metric, 4.0);
    assert_eq!(all.num_trees, 15);
    let none: EvalMetrics<f32, f64> = aggregate_fold_results(&[], &Floats, &Floats);
    assert_eq!(none.val_metric, f32::MAX);

    let folds = evaluate_kfold(3, &|k: usize| Ok(fold(k as f32, 1, None)), &Floats, &Floats);
    assert_eq!(folds.unwrap().val_metric, 1.0);
    let broken = evaluate_kfold(
        3,
        &|k: usize| {
            if k == 1 {
                Err(TreeBoostError::Training("no".into()))
            } else {
                Ok(fold(0.0, 1, None))
            }
        },
        &Floats,
        &Floats,
    );
    assert_eq!(broken.unwrap_err().message(), "no");
}

#[test]
fn conformal_trials_are_judged_by_their_quantile() {
    let with: EvalMetrics<f32, f64> =
        conformal_metrics(Some(0.5), 3.0, 7, (None, None, None), &Floats);
    assert_eq!(with.val_metric, 0.5);
    assert_eq!(with.num_trees, 7);
    let without: EvalMetrics<f32, f64> =
        conformal_metrics(None, 3.0, 7, (None, None, None), &Floats);
    assert_eq!(without.val_metric, f32::MAX);
    let text = format_trial_metrics(
        &finish_trial(0, 0, TextMap::new(), with, 1),
        true,
        TaskType::Regression,
        &Floats,
        &Floats,
    );
    assert_eq!(text, "q=0.50000 (interval width)");
    let plain = format_trial_metrics(
        &trial(0, 0, 0.25, 6.0),
        false,
        TaskType::Regression,
        &Floats,
        &Floats,
    );
    assert_eq!(plain, "MSE=0.25000 RMSE=0.5000");
    assert!(!uses_era_split(
        OptimizationMetric::ValidationLoss,
        true,
        false
    ));
}

#[test]
fn missing_targets_are_refused() {
    assert_eq!(
        collect_targets(&[Some(1.0f32), Some(2.0)], "y").unwrap(),
        vec![1.0, 2.0]
    );
    match collect_targets(&[Some(1.0f32), None], "y") {
        Err(e) => assert!(e.message().contains("y")),
        Ok(_) => panic!("a missing target must be refused"),
    }
}

#[test]
fn a_model_is_measured_on_both_parts() {
    let roc = |_p: &[f32], _t: &[f32]| -> f64 { 0.5 };
    let ic = |_p: &[f32], _t: &[f32], e: Option<&[u16]>| -> f64 {
        if e.is_some() {
            1.0
        } else {
            0.25
        }
    };
    let eras: Vec<u16> = vec![1];
    let measured: EvalMetrics<f32, f64> = compute_eval_metrics(
        TaskType::Regression,
        (&[1.0, 1.0], &[1.0, 3.0]),
        (&[4.0], &[1.0]),
        Some(&eras),
        12,
        &Metric::mse(),
        &roc,
        &ic,
        &Floats,
    );
    assert_eq!(measured.train_metric, 2.0);
    assert_eq!(measured.val_metric, 9.0);
    assert_eq!(measured.num_trees, 12);
    assert_eq!(measured.rank_ic, Some(1.0));
    assert_eq!(measured.roc_auc, None);

    let width: EvalMetrics<f32, f64> = extract_conformal_result(
        TaskType::Regression,
        Some(0.75),
        &[4.0],
        &[1.0],
        None,
        3,
        &roc,
        &ic,
        &Floats,
    );
    assert_eq!(width.val_metric, 0.75);
    assert_eq!(width.train_metric, 9.0);
    assert_eq!(width.rank_ic, Some(0.25));
    assert!(check_conformal_support(true).is_ok());
    match check_conformal_support(false) {
        Err(TreeBoostError::Config(m)) => assert!(m.starts_with("Conformal evaluation")),
        _ => panic!("a model without intervals must be refused"),
    }
}

#[test]
fn whole_numbers_are_tried_from_the_minimum_in_steps() {
    let tried = |min, max, step, center: f32, points| -> Vec<f32> {
        let bounds = ParamBounds::discrete_step(min, max, step);
        let param = ParamDef::new("n", bounds, center, &Floats);
        generate_param_values(&param, 2.0, points, &Floats)
    };
    assert_eq!(
        tried(2, 12, 2, 6.0, 10),
        vec![2.0, 4.0, 6.0, 8.0, 10.0, 12.0]
    );
    assert_eq!(tried(1, 10, 3, 4.0, 10), vec![1.0, 4.0, 7.0, 10.0]);
    assert_eq!(tried(1, 9, 3, 4.0, 10), vec![1.0, 4.0, 7.0]);
    assert_eq!(tried(0, 2, 1, 1.0, 10), vec![0.0, 1.0, 2.0]);
    assert_eq!(tried(2, 12, 2, 6.0, 2), vec![2.0, 6.0]);
    assert_eq!(tried(2, 12, 2, 6.0, 1), vec![6.0]);
}

#[test]
fn windows_widen_to_the_grid() {
    let bounds = ParamBounds::discrete_step(1, 22, 5);
    let param = ParamDef::new("n", bounds, 11.0, &Floats);
    let values: Vec<f32> = generate_param_values(&param, 0.25, 10, &Floats);
    assert_eq!(values, vec![6.0, 11.0, 16.0]);
    assert_eq!(param.center, 11.0);
}

#[test]
fn seed_decides_the_plan() {
    let plan = |seed: u64| -> Vec<Vec<(f32, f32)>> {
        let config = TunerConfig::<f32>::new(&Floats)
            .with_space(ParameterSpace::minimal(&Floats))
            .with_grid_strategy(GridStrategy::lhs(6))
            .with_seed(seed);
        let tuner: AutoTuner<f32, f64> = AutoTuner::new(0.0, &Floats)
            .with_config(config, OptimizationMetric::ValidationLoss)
            .start(&Floats)
            .unwrap();
        match tuner.plan_draws(&Floats) {
            Draws::Between(limits, _) => limits,
            _ => panic!("layers are planned with limits"),
        }
    };
    assert_eq!(plan(3), plan(3));
    assert!(plan(3) != plan(4));
    let (strata, _) = latin_strata(ParameterSpace::<f32>::minimal(&Floats).len(), 6, 3);
    assert_eq!(plan(3), lhs_intervals(&strata, 6, &Floats));
}

#[test]
fn strata_are_shuffled_one_after_the_other() {
    let mut rng = StdRng::seed_from_u64(11);
    let (strata, generator) = latin_strata(3, 9, 11);
    for list in &strata {
        let mut expected: Vec<usize> = (0..9).collect();
        expected.shuffle(&mut rng);
        assert_eq!(*list, expected);
    }
    let mut rest = generator.into_rng();
    assert_eq!(rest.gen::<f32>(), rng.gen::<f32>());
}

#[test]
fn the_best_trial_is_the_first_of_the_least_loss() {
    let mut history: SearchHistory<f32, f64> = SearchHistory::default();
    assert!(history.is_empty());
    assert!(history.best().is_none());
    let losses = [0.5, 0.3, 0.4, 0.3, 0.3, 0.9];
    for (id, loss) in losses.iter().enumerate() {
        history.add(trial(id, 0, *loss, 6.0));
    }
    assert_eq!(history.len(), losses.len());
    for (id, loss) in losses.iter().enumerate() {
        assert_eq!(history.trials()[id].trial_id, id);
        assert_eq!(history.trials()[id].val_loss, *loss);
    }
    assert_eq!(history.best().unwrap().trial_id, 1);

    let mut by_f1: SearchHistory<f32, f64> =
        SearchHistory::with_metric(OptimizationMetric::F1Score);
    for (id, f1) in [0.2, 0.8, 0.8].iter().enumerate() {
        let mut t = trial(id, 0, 0.5, 6.0);
        t.f1_score = Some(*f1);
        by_f1.add(t);
    }
    assert_eq!(by_f1.best().unwrap().trial_id, 1);
}

#[test]
fn the_data_are_divided_as_the_strategy_says() {
    let holdout = EvalStrategy::holdout(0.25f32);
    let folds = EvalStrategy::<f32>::kfold(4);
    let loss = OptimizationMetric::ValidationLoss;
    let ic = OptimizationMetric::RankIc;
    let once = TuningMode::Optimistic;
    let anew = TuningMode::Realistic;

    let at_random = Course::AtRandom { ratio: 0.25 };
    let by_era = Course::ByEra { ratio: 0.25 };
    let in_folds = Course::Folds { k: 4 };
    assert_eq!(choose_course(&holdout, loss, once, true, false), at_random);
    assert_eq!(choose_course(&holdout, ic, once, false, false), at_random);
    assert_eq!(choose_course(&holdout, ic, once, true, false), by_era);
    assert_eq!(choose_course(&holdout, ic, anew, true, false), at_random);
    assert_eq!(choose_course(&folds, ic, once, true, false), in_folds);
    assert_eq!(choose_course(&folds, loss, anew, false, false), in_folds);
    for strategy in [holdout, folds] {
        for metric in [loss, ic] {
            assert_eq!(
                choose_course(&strategy, metric, once, true, true),
                Course::Divided
            );
        }
    }
}

#[test]
fn the_data_are_divided_for_intervals() {
    let loss = OptimizationMetric::ValidationLoss;
    let ic = OptimizationMetric::RankIc;
    let once = TuningMode::Optimistic;
    let anew = TuningMode::Realistic;

    assert_eq!(
        choose_interval_course(1, 0.3f32, loss, once, true, false),
        Course::Undivided
    );
    assert_eq!(
        choose_interval_course(1, 0.3f32, ic, once, false, false),
        Course::Undivided
    );
    assert_eq!(
        choose_interval_course(1, 0.3f32, ic, once, true, false),
        Course::ByEra { ratio: 0.2 }
    );
    assert_eq!(
        choose_interval_course(1, 0.3f32, ic, anew, true, false),
        Course::AtRandom { ratio: 0.3 }
    );
    assert_eq!(
        choose_interval_course(5, 0.3f32, ic, once, true, false),
        Course::Folds { k: 5 }
    );
    assert_eq!(
        choose_interval_course(5, 0.3f32, loss, anew, false, false),
        Course::Folds { k: 5 }
    );
    assert_eq!(
        choose_interval_course(5, 0.3f32, loss, once, false, true),
        Course::Divided
    );
    assert_eq!(calibration_share(once, 0.3f32), 0.3);
    assert_eq!(calibration_share(anew, 0.3f32), 0.2);
}

#[test]
fn the_settings_go_with_the_division() {
    let once = TuningMode::Optimistic;
    let anew = TuningMode::Realistic;
    let mut config = base_config();
    config.validation_ratio = 0.4;
    config.early_stopping_rounds = 9;
    config.max_depth = 3;
    let forced = |course: Course<f32>, mode: TuningMode| {
        let settings = settings_for(&course, mode, 7, &config);
        assert_eq!(settings.max_depth, 3);
        assert_eq!(settings.num_rounds, 100);
        (settings.validation_ratio, settings.early_stopping_rounds)
    };
    assert_eq!(forced(Course::Divided, once), (0.0, 0));
    assert_eq!(forced(Course::AtRandom { ratio: 0.25 }, once), (0.25, 0));
    assert_eq!(forced(Course::ByEra { ratio: 0.25 }, once), (0.25, 0));
    assert_eq!(forced(Course::Folds { k: 4 }, once), (0.4, 9));
    assert_eq!(forced(Course::AtRandom { ratio: 0.25 }, anew), (0.0, 7));
    assert_eq!(forced(Course::Folds { k: 4 }, anew), (0.0, 7));

    let divided = interval_settings_for(&Course::Divided, &config);
    assert_eq!(divided.validation_ratio, 0.0);
    assert_eq!(divided.early_stopping_rounds, 0);
    let kept = interval_settings_for(&Course::Undivided, &config);
    assert_eq!(kept.validation_ratio, 0.4);
    assert_eq!(kept.early_stopping_rounds, 9);
}
