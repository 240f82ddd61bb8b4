//! The phases of tuning a linear model and trees behind it.

use crate::error::{Result, TreeBoostError};
use crate::functions::{show_number, Functions};
use crate::number::{highest_number, lowest_number, magnitude, sum, Number};
use crate::text::{decimal_string, join2, join5};
use crate::tree::vector_tree::copy_list;
use crate::tuner::ltt::{
    JointTrial, LinearHyperparams, LinearTrial, LttRules, LttTunerConfig, LttTuningHistory,
    LttTuningResult, PhaseTimes, TreeHyperparams, TreeTrial,
};
use vstd::prelude::*;

verus! {

/// The data, divided into those of the training and those held back.
#[derive(Debug, Clone)]
pub struct DataSplit<V> {
    /// The features of the training, row by row.
    pub train_features: Vec<V>,
    /// The targets of the training.
    pub train_targets: Vec<V>,
    /// The features held back, row by row.
    pub val_features: Vec<V>,
    /// The targets held back.
    pub val_targets: Vec<V>,
    /// The number of features of a row.
    pub num_features: usize,
}

/// The settings with which a linear model is fitted; where there is none, the
/// model's own is taken.
#[derive(Debug, Clone, Copy)]
pub struct LinearQuery<V> {
    /// The strength of the regularisation.
    pub lambda: V,
    /// How much of the regularisation goes by the absolute values.
    pub l1_ratio: V,
    /// How much the linear model contributes.
    pub shrinkage_factor: Option<V>,
    /// How far predictions are drawn towards the mean.
    pub extrapolation_damping: Option<V>,
}

/// What came of fitting a linear model.
#[derive(Debug, Clone)]
pub struct LinearEvalResult<V> {
    /// The predictions for the data of the training.
    pub train_preds: Vec<V>,
    /// The predictions for the data held back.
    pub val_preds: Vec<V>,
    /// The coefficient of determination on the data held back.
    pub r2: V,
    /// The root of the mean squared error on the data held back.
    pub rmse: V,
}

impl<V: Number> LinearHyperparams<V> {
    /// The settings with which a linear model is fitted.
    pub fn to_config(&self) -> (r: LinearQuery<V>)
        ensures
            r == (LinearQuery {
                lambda: self.lambda,
                l1_ratio: self.l1_ratio,
                shrinkage_factor: Some(self.shrinkage_factor),
                extrapolation_damping: Some(self.extrapolation_damping),
            }),
    {
        LinearQuery {
            lambda: self.lambda,
            l1_ratio: self.l1_ratio,
            shrinkage_factor: Some(self.shrinkage_factor),
            extrapolation_damping: Some(self.extrapolation_damping),
        }
    }
}

/// The rows of a table at some places, one after the other.
pub open spec fn rows_at<V>(features: Seq<V>, num_features: nat, indices: Seq<usize>) -> Seq<V>
    decreases indices.len(),
{
    if indices.len() == 0 {
        Seq::empty()
    } else {
        rows_at(features, num_features, indices.drop_last()) + features.subrange(
            indices.last() * num_features,
            indices.last() * num_features + num_features,
        )
    }
}

/// The rows of a table and the targets at some places.
pub fn extract_split<V: Copy>(
    features: &[V],
    targets: &[V],
    num_features: usize,
    indices: &[usize],
) -> (r: (Vec<V>, Vec<V>))
    requires
        features@.len() == targets@.len() * num_features,
        forall|i: int| 0 <= i < indices@.len() ==> (#[trigger] indices@[i]) < targets@.len(),
    ensures
        r.0@ == rows_at(features@, num_features as nat, indices@),
        r.1@ == crate::tuner::evaluation::picked(targets@, indices@),
{
    let len: usize = features.len();
    let mut rows: Vec<V> = Vec::new();
    let mut picked_targets: Vec<V> = Vec::new();
    let mut i: usize = 0;
    assert(indices@.take(0) =~= Seq::empty());
    while i < indices.len()
        invariant
            len == features@.len(),
            features@.len() == targets@.len() * num_features,
            forall|k: int| 0 <= k < indices@.len() ==> (#[trigger] indices@[k]) < targets@.len(),
            i <= indices.len(),
            rows@ == rows_at(features@, num_features as nat, indices@.take(i as int)),
            picked_targets@.len() == i,
            forall|k: int|
                0 <= k < i ==> #[trigger] picked_targets@[k] == targets@[indices@[k] as int],
        decreases indices.len() - i,
    {
        let idx: usize = indices[i];
        proof {
            assert(indices@[i as int] < targets@.len());
            assert(indices@.take(i + 1).drop_last() =~= indices@.take(i as int));
            assert(idx * num_features + num_features <= targets@.len() * num_features)
                by (nonlinear_arith)
                requires
                    idx + 1 <= targets@.len(),
            ;
            assert(idx * num_features >= 0) by (nonlinear_arith);
        }
        let start: usize = idx * num_features;
        let ghost before = rows@;
        let mut c: usize = 0;
        assert(features@.subrange(start as int, start as int) =~= Seq::empty());
        while c < num_features
            invariant
                len == features@.len(),
                c <= num_features,
                start + num_features <= len,
                rows@ == before + features@.subrange(start as int, start + c),
            decreases num_features - c,
        {
            rows.push(features[start + c]);
            assert(features@.subrange(start as int, start + c + 1) =~= features@.subrange(
                start as int,
                start + c,
            ).push(features@[start + c]));
            c = c + 1;
            assert(rows@ =~= before + features@.subrange(start as int, start + c));
        }
        picked_targets.push(targets[idx]);
        i = i + 1;
    }
    proof {
        assert(indices@.take(i as int) =~= indices@);
        assert(picked_targets@ =~= crate::tuner::evaluation::picked(targets@, indices@));
    }
    (rows, picked_targets)
}

/// The numbers from `from` up to but without `to`.
pub open spec fn span(from: int, to: int) -> Seq<usize> {
    Seq::new((to - from) as nat, |i: int| (from + i) as usize)
}

/// The numbers from `from` up to but without `to`.
fn list_span(from: usize, to: usize) -> (r: Vec<usize>)
    requires
        from <= to,
    ensures
        r@ == span(from as int, to as int),
{
    let mut list: Vec<usize> = Vec::new();
    let mut i: usize = from;
    while i < to
        invariant
            from <= i <= to,
            list@ == span(from as int, i as int),
        decreases to - i,
    {
        list.push(i);
        i = i + 1;
        assert(list@ =~= span(from as int, i as int));
    }
    list
}

/// The settings with which the linear model is tried, in order.
pub open spec fn linear_queries<V>(config: LttTunerConfig<V>) -> Seq<LinearQuery<V>> {
    let n = config.l1_ratio_values@.len() as int;
    Seq::new(
        config.lambda_values@.len() * config.l1_ratio_values@.len(),
        |m: int|
            LinearQuery {
                lambda: config.lambda_values@[m / n],
                l1_ratio: config.l1_ratio_values@[m % n],
                shrinkage_factor: None,
                extrapolation_damping: None,
            },
    )
}

/// The settings with which the damping is tried, in order.
pub open spec fn damping_queries<V>(
    config: LttTunerConfig<V>,
    linear: LinearHyperparams<V>,
) -> Seq<LinearQuery<V>> {
    Seq::new(
        config.extrapolation_damping_values@.len(),
        |m: int|
            LinearQuery {
                lambda: linear.lambda,
                l1_ratio: linear.l1_ratio,
                shrinkage_factor: Some(linear.shrinkage_factor),
                extrapolation_damping: Some(config.extrapolation_damping_values@[m]),
            },
    )
}

/// The first settings have been tried without an error, with these results.
pub open spec fn tried<V, E>(
    evaluate: &E,
    split: &DataSplit<V>,
    queries: Seq<LinearQuery<V>>,
    results: Seq<LinearEvalResult<V>>,
) -> bool where E: Fn(LinearQuery<V>, &DataSplit<V>) -> Result<LinearEvalResult<V>> {
    &&& results.len() <= queries.len()
    &&& forall|m: int|
        0 <= m < results.len() ==> call_ensures(
            *evaluate,
            (queries[m], split),
            Ok::<LinearEvalResult<V>, TreeBoostError>(#[trigger] results[m]),
        )
}

/// An error came up at the settings behind those that have been tried.
pub open spec fn failed<V, E>(
    evaluate: &E,
    split: &DataSplit<V>,
    queries: Seq<LinearQuery<V>>,
    results: Seq<LinearEvalResult<V>>,
    e: TreeBoostError,
) -> bool where E: Fn(LinearQuery<V>, &DataSplit<V>) -> Result<LinearEvalResult<V>> {
    &&& tried(evaluate, split, queries, results)
    &&& results.len() < queries.len()
    &&& call_ensures(
        *evaluate,
        (queries[results.len() as int], split),
        Err::<LinearEvalResult<V>, TreeBoostError>(e),
    )
}

/// The place of the result with the greatest coefficient of determination: from
/// minus infinity on, every one that is greater than the greatest so far.
pub open spec fn best_fit<V: Number>(results: Seq<LinearEvalResult<V>>) -> Option<int>
    decreases results.len(),
{
    if results.len() == 0 {
        None
    } else {
        let so_far = best_fit(results.drop_last());
        let limit = match so_far {
            Some(i) => results[i].r2,
            None => crate::number::lowest(),
        };
        if crate::number::above(results.last().r2, limit) {
            Some(results.len() - 1)
        } else {
            so_far
        }
    }
}

/// The place of the result with the least error: from infinity on, every one
/// that is less than the least so far.
pub open spec fn least_error<V: Number>(results: Seq<LinearEvalResult<V>>) -> Option<int>
    decreases results.len(),
{
    if results.len() == 0 {
        None
    } else {
        let so_far = least_error(results.drop_last());
        let limit = match so_far {
            Some(i) => results[i].rmse,
            None => crate::number::highest(),
        };
        if crate::number::below(results.last().rmse, limit) {
            Some(results.len() - 1)
        } else {
            so_far
        }
    }
}

/// The trials of the linear model.
pub open spec fn linear_trials_of<V>(
    queries: Seq<LinearQuery<V>>,
    results: Seq<LinearEvalResult<V>>,
) -> Seq<LinearTrial<V>> {
    Seq::new(
        results.len(),
        |m: int|
            LinearTrial {
                lambda: queries[m].lambda,
                l1_ratio: queries[m].l1_ratio,
                r2: results[m].r2,
                rmse: results[m].rmse,
            },
    )
}

/// What came of tuning the linear model.
#[derive(Debug, Clone)]
pub struct LinearPhase<V> {
    /// The best settings.
    pub params: LinearHyperparams<V>,
    /// Their coefficient of determination.
    pub r2: V,
    /// Their predictions for the data of the training.
    pub train_preds: Vec<V>,
    /// Their predictions for the data held back.
    pub val_preds: Vec<V>,
    /// The trials.
    pub trials: Vec<LinearTrial<V>>,
}

/// The result of the linear phase: the best of all trials, the first error, or
/// the complaint that no trial is any good.
pub open spec fn linear_phase_gives<V: Number, E>(
    config: LttTunerConfig<V>,
    rules: LttRules<V>,
    evaluate: &E,
    split: &DataSplit<V>,
    results: Seq<LinearEvalResult<V>>,
    r: Result<LinearPhase<V>>,
) -> bool where E: Fn(LinearQuery<V>, &DataSplit<V>) -> Result<LinearEvalResult<V>> {
    let queries = linear_queries(config);
    match r {
        Ok(phase) => {
            &&& tried(evaluate, split, queries, results)
            &&& results.len() == queries.len()
            &&& best_fit(results) matches Some(b)
            &&& phase.params == (LinearHyperparams {
                lambda: queries[b].lambda,
                l1_ratio: queries[b].l1_ratio,
                shrinkage_factor: rules.default_shrinkage,
                extrapolation_damping: crate::number::small(0),
            })
            &&& phase.r2 == results[b].r2
            &&& phase.train_preds@ == results[b].train_preds@
            &&& phase.val_preds@ == results[b].val_preds@
            &&& phase.trials@ == linear_trials_of(queries, results)
        },
        Err(e) => {
            ||| failed(evaluate, split, queries, results, e)
            ||| {
                &&& tried(evaluate, split, queries, results)
                &&& results.len() == queries.len()
                &&& best_fit(results) is None
                &&& e.is_training("Linear phase produced no results"@)
            }
        },
    }
}

/// Tuning the linear model.
fn tune_linear_phase<V: Number, E>(
    config: &LttTunerConfig<V>,
    rules: &LttRules<V>,
    evaluate: &E,
    split: &DataSplit<V>,
) -> (r: Result<LinearPhase<V>>)
    where E: Fn(LinearQuery<V>, &DataSplit<V>) -> Result<LinearEvalResult<V>>
    requires
        crate::number::arithmetic::<V>(),
        config.lambda_values@.len() * config.l1_ratio_values@.len() <= usize::MAX,
        forall|q: LinearQuery<V>, s: &DataSplit<V>| #[trigger] call_requires(*evaluate, (q, s)),
    ensures
        exists|results: Seq<LinearEvalResult<V>>| #[trigger]
            linear_phase_gives(*config, *rules, evaluate, split, results, r),
{
    let ghost queries = linear_queries(*config);
    let ghost mut results: Seq<LinearEvalResult<V>> = Seq::empty();
    let mut best: Option<LinearPhase<V>> = None;
    let mut trials: Vec<LinearTrial<V>> = Vec::new();
    let mut best_r2: V = lowest_number();
    let n: usize = config.l1_ratio_values.len();
    let total: usize = config.lambda_values.len() * n;
    let mut m: usize = 0;
    while m < total
        invariant
            crate::number::arithmetic::<V>(),
            n == config.l1_ratio_values@.len(),
            total == config.lambda_values@.len() * n,
            queries == linear_queries(*config),
            forall|q: LinearQuery<V>, s: &DataSplit<V>| #[trigger]
                call_requires(*evaluate, (q, s)),
            m <= total,
            results.len() == m,
            tried(evaluate, split, queries, results),
            trials@ == linear_trials_of(queries, results),
            match best {
                Some(phase) => {
                    &&& best_fit(results) matches Some(b)
                    &&& 0 <= b < m
                    &&& phase.params == (LinearHyperparams {
                        lambda: queries[b].lambda,
                        l1_ratio: queries[b].l1_ratio,
                        shrinkage_factor: rules.default_shrinkage,
                        extrapolation_damping: crate::number::small(0),
                    })
                    &&& phase.r2 == results[b].r2
                    &&& phase.train_preds@ == results[b].train_preds@
                    &&& phase.val_preds@ == results[b].val_preds@
                    &&& best_r2 == results[b].r2
                },
                None => best_fit(results) is None && best_r2 == crate::number::lowest::<V>(),
            },
        decreases total - m,
    {
        proof {
            assert(n > 0 && 0 <= m / n < config.lambda_values@.len() && 0 <= m % n < n)
                by (nonlinear_arith)
                requires
                    0 <= m < config.lambda_values@.len() * n,
                    n >= 0,
            ;
        }
        let lambda: V = config.lambda_values[m / n];
        let l1_ratio: V = config.l1_ratio_values[m % n];
        let query = LinearQuery {
            lambda,
            l1_ratio,
            shrinkage_factor: None,
            extrapolation_damping: None,
        };
        assert(query == queries[m as int]);
        match evaluate(query, split) {
            Ok(eval) => {
                let ghost before = results;
                proof {
                    results = results.push(eval);
                    assert(results.drop_last() =~= before);
                    assert(tried(evaluate, split, queries, results)) by {
                        assert forall|k: int| 0 <= k < results.len() implies call_ensures(
                            *evaluate,
                            (queries[k], split),
                            Ok::<LinearEvalResult<V>, TreeBoostError>(#[trigger] results[k]),
                        ) by {
                            if k < before.len() {
                                assert(results[k] == before[k]);
                            }
                        }
                    }
                }
                trials.push(LinearTrial { lambda, l1_ratio, r2: eval.r2, rmse: eval.rmse });
                assert(trials@ =~= linear_trials_of(queries, results));
                if eval.r2 > best_r2 {
                    best_r2 = eval.r2;
                    best = Some(
                        LinearPhase {
                            params: LinearHyperparams {
                                lambda,
                                l1_ratio,
                                shrinkage_factor: rules.default_shrinkage,
                                extrapolation_damping: V::from(0u8),
                            },
                            r2: eval.r2,
                            train_preds: eval.train_preds,
                            val_preds: eval.val_preds,
                            trials: Vec::new(),
                        },
                    );
                }
            },
            Err(e) => {
                proof {
                    assert(failed(evaluate, split, queries, results, e));
                    assert(linear_phase_gives(
                        *config,
                        *rules,
                        evaluate,
                        split,
                        results,
                        Err(e),
                    ));
                }
                return Err(e);
            },
        }
        m = m + 1;
    }
    match best {
        Some(phase) => {
            let done = LinearPhase { trials, ..phase };
            proof {
                assert(linear_phase_gives(*config, *rules, evaluate, split, results, Ok(done)));
            }
            Ok(done)
        },
        None => {
            let e = TreeBoostError::Training("Linear phase produced no results".to_owned());
            proof {
                assert(linear_phase_gives(*config, *rules, evaluate, split, results, Err(e)));
            }
            Err(e)
        },
    }
}

/// The result of tuning the damping: the settings with the damping of the least
/// error, if any error is less than infinity, and the trials; or the first
/// error.
pub open spec fn joint_phase_gives<V: Number, E>(
    config: LttTunerConfig<V>,
    linear: LinearHyperparams<V>,
    evaluate: &E,
    split: &DataSplit<V>,
    results: Seq<LinearEvalResult<V>>,
    r: Result<(LinearHyperparams<V>, Vec<JointTrial<V>>)>,
) -> bool where E: Fn(LinearQuery<V>, &DataSplit<V>) -> Result<LinearEvalResult<V>> {
    let queries = damping_queries(config, linear);
    match r {
        Ok(found) => {
            &&& tried(evaluate, split, queries, results)
            &&& results.len() == queries.len()
            &&& found.0 == (LinearHyperparams {
                extrapolation_damping: match least_error(results) {
                    Some(b) => config.extrapolation_damping_values@[b],
                    None => linear.extrapolation_damping,
                },
                ..linear
            })
            &&& found.1@ == Seq::new(
                results.len(),
                |m: int|
                    JointTrial {
                        extrapolation_damping: config.extrapolation_damping_values@[m],
                        combined_rmse: results[m].rmse,
                    },
            )
        },
        Err(e) => failed(evaluate, split, queries, results, e),
    }
}

/// Tuning the damping.
fn tune_joint_phase<V: Number, E>(
    config: &LttTunerConfig<V>,
    linear: &LinearHyperparams<V>,
    evaluate: &E,
    split: &DataSplit<V>,
) -> (r: Result<(LinearHyperparams<V>, Vec<JointTrial<V>>)>)
    where E: Fn(LinearQuery<V>, &DataSplit<V>) -> Result<LinearEvalResult<V>>
    requires
        crate::number::arithmetic::<V>(),
        forall|q: LinearQuery<V>, s: &DataSplit<V>| #[trigger] call_requires(*evaluate, (q, s)),
    ensures
        exists|results: Seq<LinearEvalResult<V>>| #[trigger]
            joint_phase_gives(*config, *linear, evaluate, split, results, r),
{
    let ghost queries = damping_queries(*config, *linear);
    let ghost mut results: Seq<LinearEvalResult<V>> = Seq::empty();
    let mut best: LinearHyperparams<V> = *linear;
    let mut best_rmse: V = highest_number();
    let mut trials: Vec<JointTrial<V>> = Vec::new();
    let mut m: usize = 0;
    while m < config.extrapolation_damping_values.len()
        invariant
            crate::number::arithmetic::<V>(),
            queries == damping_queries(*config, *linear),
            forall|q: LinearQuery<V>, s: &DataSplit<V>| #[trigger]
                call_requires(*evaluate, (q, s)),
            m <= config.extrapolation_damping_values.len(),
            results.len() == m,
            tried(evaluate, split, queries, results),
            trials@ == Seq::new(
                results.len(),
                |k: int|
                    JointTrial {
                        extrapolation_damping: config.extrapolation_damping_values@[k],
                        combined_rmse: results[k].rmse,
                    },
            ),
            match least_error(results) {
                Some(b) => {
                    &&& 0 <= b < m
                    &&& best_rmse == results[b].rmse
                    &&& best == (LinearHyperparams {
                        extrapolation_damping: config.extrapolation_damping_values@[b],
                        ..*linear
                    })
                },
                None => best == *linear && best_rmse == crate::number::highest::<V>(),
            },
        decreases config.extrapolation_damping_values.len() - m,
    {
        let damping: V = config.extrapolation_damping_values[m];
        let query = LinearQuery {
            lambda: linear.lambda,
            l1_ratio: linear.l1_ratio,
            shrinkage_factor: Some(linear.shrinkage_factor),
            extrapolation_damping: Some(damping),
        };
        assert(query == queries[m as int]);
        match evaluate(query, split) {
            Ok(eval) => {
                let ghost before = results;
                proof {
                    results = results.push(eval);
                    assert(results.drop_last() =~= before);
                    assert(tried(evaluate, split, queries, results)) by {
                        assert forall|k: int| 0 <= k < results.len() implies call_ensures(
                            *evaluate,
                            (queries[k], split),
                            Ok::<LinearEvalResult<V>, TreeBoostError>(#[trigger] results[k]),
                        ) by {
                            if k < before.len() {
                                assert(results[k] == before[k]);
                            }
                        }
                    }
                }
                trials.push(
                    JointTrial { extrapolation_damping: damping, combined_rmse: eval.rmse },
                );
                assert(trials@ =~= Seq::new(
                    results.len(),
                    |k: int|
                        JointTrial {
                            extrapolation_damping: config.extrapolation_damping_values@[k],
                            combined_rmse: results[k].rmse,
                        },
                ));
                if eval.rmse < best_rmse {
                    best_rmse = eval.rmse;
                    best = LinearHyperparams { extrapolation_damping: damping, ..best };
                }
            },
            Err(e) => {
                proof {
                    assert(failed(evaluate, split, queries, results, e));
                    assert(joint_phase_gives(
                        *config,
                        *linear,
                        evaluate,
                        split,
                        results,
                        Err(e),
                    ));
                }
                return Err(e);
            },
        }
        m = m + 1;
    }
    let found = (best, trials);
    proof {
        assert(joint_phase_gives(*config, *linear, evaluate, split, results, Ok(found)));
    }
    Ok(found)
}

/// What the linear model leaves over of the targets, where `shrinkage` says how
/// much it contributes.
pub open spec fn leftover<V: Number>(targets: Seq<V>, preds: Seq<V>, shrinkage: V) -> Seq<V> {
    let n = if targets.len() < preds.len() {
        targets.len()
    } else {
        preds.len()
    };
    Seq::new(
        n,
        |i: int| crate::number::minus(targets[i], crate::number::times(shrinkage, preds[i])),
    )
}

/// Computes [`leftover`].
pub fn residuals<V: Number>(targets: &[V], preds: &[V], shrinkage: V) -> (r: Vec<V>)
    requires
        crate::number::arithmetic::<V>(),
    ensures
        r@ == leftover(targets@, preds@, shrinkage),
{
    let mut list: Vec<V> = Vec::new();
    let mut i: usize = 0;
    while i < targets.len() && i < preds.len()
        invariant
            crate::number::arithmetic::<V>(),
            i <= targets.len(),
            i <= preds.len(),
            list@.len() == i,
            forall|k: int|
                0 <= k < i ==> #[trigger] list@[k] == crate::number::minus(
                    targets@[k],
                    crate::number::times(shrinkage, preds@[k]),
                ),
        decreases targets.len() - i,
    {
        list.push(targets[i] - shrinkage * preds[i]);
        i = i + 1;
    }
    assert(list@ =~= leftover(targets@, preds@, shrinkage));
    list
}

/// The squares of a list.
pub open spec fn squares<V: Number>(list: Seq<V>) -> Seq<V> {
    Seq::new(list.len(), |i: int| crate::number::times(list[i], list[i]))
}

/// The mean square of what a linear model leaves over.
pub open spec fn leftover_square<V: Number, F: Functions<V>>(
    f: &F,
    targets: Seq<V>,
    preds: Seq<V>,
    shrinkage: V,
) -> V {
    crate::number::over(
        crate::number::total(squares(leftover(targets, preds, shrinkage))),
        crate::functions::count_of::<V, F>(
            f,
            if targets.len() < 1 {
                1
            } else {
                targets.len() as usize
            },
        ),
    )
}

/// Computes [`leftover_square`].
fn mean_leftover<V: Number, F: Functions<V>>(targets: &[V], preds: &[V], shrinkage: V, f: &F) -> (r:
    V)
    requires
        crate::number::arithmetic::<V>(),
        crate::functions::computes(f),
    ensures
        r == leftover_square(f, targets@, preds@, shrinkage),
{
    let list = residuals(targets, preds, shrinkage);
    let mut squared: Vec<V> = Vec::new();
    let mut i: usize = 0;
    while i < list.len()
        invariant
            crate::number::arithmetic::<V>(),
            i <= list.len(),
            squared@.len() == i,
            forall|k: int|
                0 <= k < i ==> #[trigger] squared@[k] == crate::number::times(list@[k], list@[k]),
        decreases list.len() - i,
    {
        squared.push(list[i] * list[i]);
        i = i + 1;
    }
    assert(squared@ =~= squares(list@));
    let count: usize = if targets.len() < 1 {
        1
    } else {
        targets.len()
    };
    let n: V = f.count(count);
    sum(squared.as_slice()) / n
}

/// The contributions that are tried: those that suit a strong or a weak linear
/// model, or all, where none do or the model is neither.
pub open spec fn shrinkage_candidates<V: Number>(
    values: Seq<V>,
    rules: LttRules<V>,
    linear_r2: V,
) -> Seq<V> {
    let suited = if crate::number::above(linear_r2, rules.strong_linear_r2) {
        values.filter(|s: V| crate::number::at_least(s, rules.high_shrinkage_min))
    } else if crate::number::below(linear_r2, rules.weak_linear_r2) {
        values.filter(|s: V| crate::number::at_most(s, rules.low_shrinkage_max))
    } else {
        values
    };
    if suited.len() == 0 {
        values
    } else {
        suited
    }
}

/// The place of the contribution that leaves least over: from infinity on,
/// every one that leaves less than the least so far.
pub open spec fn least_leftover<V: Number, F: Functions<V>>(
    f: &F,
    candidates: Seq<V>,
    targets: Seq<V>,
    preds: Seq<V>,
) -> Option<int>
    decreases candidates.len(),
{
    if candidates.len() == 0 {
        None
    } else {
        let so_far = least_leftover(f, candidates.drop_last(), targets, preds);
        let limit = match so_far {
            Some(i) => leftover_square(f, targets, preds, candidates[i]),
            None => crate::number::highest(),
        };
        if crate::number::below(
            leftover_square(f, targets, preds, candidates.last()),
            limit,
        ) {
            Some(candidates.len() - 1)
        } else {
            so_far
        }
    }
}

/// How much the linear model contributes.
pub open spec fn shrinkage_of<V: Number, F: Functions<V>>(
    f: &F,
    values: Seq<V>,
    rules: LttRules<V>,
    linear_r2: V,
    preds: Seq<V>,
    targets: Seq<V>,
) -> V {
    if values.len() == 0 {
        rules.default_shrinkage
    } else if values.len() == 1 {
        values[0]
    } else {
        let candidates = shrinkage_candidates(values, rules, linear_r2);
        match least_leftover(f, candidates, targets, preds) {
            Some(i) => candidates[i],
            None => rules.default_shrinkage,
        }
    }
}

/// The entries of a list that are at least, or at most, a limit.
fn suited_values<V: Number>(values: &[V], limit: V, at_least: bool) -> (r: Vec<V>)
    requires
        crate::number::arithmetic::<V>(),
    ensures
        at_least ==> r@ == values@.filter(|s: V| crate::number::at_least(s, limit)),
        !at_least ==> r@ == values@.filter(|s: V| crate::number::at_most(s, limit)),
{
    let ghost keep = |s: V|
        if at_least {
            crate::number::at_least(s, limit)
        } else {
            crate::number::at_most(s, limit)
        };
    let mut list: Vec<V> = Vec::new();
    let mut i: usize = 0;
    proof {
        reveal(Seq::filter);
        assert(values@.take(0) =~= Seq::empty());
    }
    while i < values.len()
        invariant
            crate::number::arithmetic::<V>(),
            keep == (|s: V|
                if at_least {
                    crate::number::at_least(s, limit)
                } else {
                    crate::number::at_most(s, limit)
                }),
            i <= values.len(),
            list@ == values@.take(i as int).filter(keep),
        decreases values.len() - i,
    {
        proof {
            reveal(Seq::filter);
            assert(values@.take(i + 1).drop_last() =~= values@.take(i as int));
            assert(values@.take(i + 1).last() == values@[i as int]);
        }
        let v: V = values[i];
        let fits: bool = if at_least {
            v >= limit
        } else {
            v <= limit
        };
        if fits {
            list.push(v);
        }
        i = i + 1;
    }
    proof {
        assert(values@.take(i as int) =~= values@);
        if at_least {
            let other = |s: V| crate::number::at_least(s, limit);
            assert(keep =~= other);
        } else {
            let other = |s: V| crate::number::at_most(s, limit);
            assert(keep =~= other);
        }
    }
    list
}

/// Chooses how much the linear model contributes, by how well it fits and by
/// what it leaves over.
pub fn select_shrinkage_factor<V: Number, F: Functions<V>>(
    config: &LttTunerConfig<V>,
    rules: &LttRules<V>,
    linear_r2: V,
    linear_val_preds: &[V],
    val_targets: &[V],
    f: &F,
) -> (r: V)
    requires
        crate::number::arithmetic::<V>(),
        crate::functions::computes(f),
    ensures
        r == shrinkage_of(
            f,
            config.shrinkage_factor_values@,
            *rules,
            linear_r2,
            linear_val_preds@,
            val_targets@,
        ),
{
    if config.shrinkage_factor_values.len() == 0 {
        return rules.default_shrinkage;
    }
    if config.shrinkage_factor_values.len() == 1 {
        return config.shrinkage_factor_values[0];
    }
    let values = config.shrinkage_factor_values.as_slice();
    let suited: Vec<V> = if linear_r2 > rules.strong_linear_r2 {
        suited_values(values, rules.high_shrinkage_min, true)
    } else if linear_r2 < rules.weak_linear_r2 {
        suited_values(values, rules.low_shrinkage_max, false)
    } else {
        copy_list(values)
    };
    let candidates: Vec<V> = if suited.len() == 0 {
        copy_list(values)
    } else {
        suited
    };
    assert(candidates@ == shrinkage_candidates(values@, *rules, linear_r2));
    let mut best: V = rules.default_shrinkage;
    let mut best_metric: V = highest_number();
    let mut i: usize = 0;
    assert(candidates@.take(0) =~= Seq::empty());
    while i < candidates.len()
        invariant
            crate::number::arithmetic::<V>(),
            crate::functions::computes(f),
            i <= candidates.len(),
            match least_leftover(
                f,
                candidates@.take(i as int),
                val_targets@,
                linear_val_preds@,
            ) {
                Some(b) => {
                    &&& 0 <= b < i
                    &&& best == candidates@[b]
                    &&& best_metric == leftover_square(
                        f,
                        val_targets@,
                        linear_val_preds@,
                        candidates@[b],
                    )
                },
                None => best == rules.default_shrinkage && best_metric
                    == crate::number::highest::<V>(),
            },
        decreases candidates.len() - i,
    {
        assert(candidates@.take(i + 1).drop_last() =~= candidates@.take(i as int));
        let left: V = mean_leftover(val_targets, linear_val_preds, candidates[i], f);
        if left < best_metric {
            best_metric = left;
            best = candidates[i];
        }
        i = i + 1;
    }
    assert(candidates@.take(i as int) =~= candidates@);
    best
}

/// Settings of the trees that are tried.
pub open spec fn tree_settings<V>(config: LttTunerConfig<V>) -> Seq<(u32, V, u32)> {
    let b = config.learning_rate_values@.len() as int;
    let c = config.num_rounds_values@.len() as int;
    Seq::new(
        config.max_depth_values@.len() * config.learning_rate_values@.len()
            * config.num_rounds_values@.len(),
        |m: int|
            (
                config.max_depth_values@[m / c / b],
                config.learning_rate_values@[m / c % b],
                config.num_rounds_values@[m % c],
            ),
    )
}

/// How well settings of the trees suit residuals that vary much, or little.
pub open spec fn tree_score<V: Number, F: Functions<V>>(
    f: &F,
    rules: LttRules<V>,
    high_variance: bool,
    t: (u32, V, u32),
) -> V {
    let depth = crate::functions::count_of::<V, F>(f, t.0 as usize);
    let rounds = crate::functions::count_of::<V, F>(f, t.2 as usize);
    let complexity = if high_variance {
        crate::number::minus(
            crate::number::plus(
                crate::number::times(depth, rules.depth_weight_high_var),
                crate::number::times(rounds, rules.rounds_weight_high_var),
            ),
            crate::number::times(t.1, rules.lr_penalty_high_var),
        )
    } else {
        crate::number::minus(
            crate::number::plus(
                crate::number::times(depth, rules.depth_weight_low_var),
                crate::number::times(t.1, rules.lr_weight_low_var),
            ),
            crate::number::times(rounds, rules.rounds_penalty_low_var),
        )
    };
    let depth_penalty = if t.0 > rules.max_depth_threshold {
        rules.extreme_config_penalty
    } else {
        crate::number::small(0)
    };
    let lr_penalty = if crate::number::below(t.1, rules.min_lr_threshold) {
        rules.extreme_config_penalty
    } else {
        crate::number::small(0)
    };
    crate::number::minus(crate::number::minus(complexity, depth_penalty), lr_penalty)
}

/// Computes [`tree_score`].
fn score_tree<V: Number, F: Functions<V>>(
    rules: &LttRules<V>,
    high_variance: bool,
    max_depth: u32,
    learning_rate: V,
    num_rounds: u32,
    f: &F,
) -> (r: V)
    requires
        crate::number::arithmetic::<V>(),
        crate::functions::computes(f),
    ensures
        r == tree_score(f, *rules, high_variance, (max_depth, learning_rate, num_rounds)),
{
    let zero: V = V::from(0u8);
    let depth: V = f.count(max_depth as usize);
    let rounds: V = f.count(num_rounds as usize);
    let complexity: V = if high_variance {
        depth * rules.depth_weight_high_var + rounds * rules.rounds_weight_high_var - learning_rate
            * rules.lr_penalty_high_var
    } else {
        depth * rules.depth_weight_low_var + learning_rate * rules.lr_weight_low_var - rounds
            * rules.rounds_penalty_low_var
    };
    let depth_penalty: V = if max_depth > rules.max_depth_threshold {
        rules.extreme_config_penalty
    } else {
        zero
    };
    let lr_penalty: V = if learning_rate < rules.min_lr_threshold {
        rules.extreme_config_penalty
    } else {
        zero
    };
    complexity - depth_penalty - lr_penalty
}

/// The place of the settings with the greatest score: from minus infinity on,
/// every one that is greater than the greatest so far.
pub open spec fn best_tree<V: Number, F: Functions<V>>(
    f: &F,
    rules: LttRules<V>,
    high_variance: bool,
    settings: Seq<(u32, V, u32)>,
) -> Option<int>
    decreases settings.len(),
{
    if settings.len() == 0 {
        None
    } else {
        let so_far = best_tree(f, rules, high_variance, settings.drop_last());
        let limit = match so_far {
            Some(i) => tree_score(f, rules, high_variance, settings[i]),
            None => crate::number::lowest(),
        };
        if crate::number::above(tree_score(f, rules, high_variance, settings.last()), limit) {
            Some(settings.len() - 1)
        } else {
            so_far
        }
    }
}

/// The settings of the trees that suit residuals best; `usual`, if no score is
/// above minus infinity.
pub open spec fn tree_params_of<V: Number, F: Functions<V>>(
    f: &F,
    config: LttTunerConfig<V>,
    rules: LttRules<V>,
    usual: TreeHyperparams<V>,
    residual_std: V,
) -> TreeHyperparams<V> {
    let settings = tree_settings(config);
    let high = crate::number::above(residual_std, rules.high_variance_threshold);
    match best_tree(f, rules, high, settings) {
        Some(i) => TreeHyperparams {
            max_depth: settings[i].0,
            learning_rate: settings[i].1,
            num_rounds: settings[i].2,
            min_child_weight: crate::number::small(1),
            subsample: crate::number::small(1),
            colsample_bytree: crate::number::small(1),
        },
        None => usual,
    }
}

/// The trials of the trees.
pub open spec fn tree_trials_of<V: Number, F: Functions<V>>(
    f: &F,
    rules: LttRules<V>,
    settings: Seq<(u32, V, u32)>,
    high_variance: bool,
    residual_range: V,
) -> Seq<TreeTrial<V>> {
    Seq::new(
        settings.len(),
        |m: int|
            TreeTrial {
                max_depth: settings[m].0,
                learning_rate: settings[m].1,
                num_rounds: settings[m].2,
                residual_rmse: crate::number::over(
                    residual_range,
                    crate::number::plus(
                        crate::number::small(1),
                        crate::number::absolute(
                            tree_score(f, rules, high_variance, settings[m]),
                        ),
                    ),
                ),
            },
    )
}

/// Tuning the trees, where `residual_std` is the standard deviation of the
/// residuals and `residual_range` the distance between the least and the
/// greatest.
pub fn tune_tree_phase<V: Number, F: Functions<V>>(
    config: &LttTunerConfig<V>,
    rules: &LttRules<V>,
    usual: &TreeHyperparams<V>,
    residual_std: V,
    residual_range: V,
    f: &F,
) -> (r: (TreeHyperparams<V>, Vec<TreeTrial<V>>))
    requires
        crate::number::arithmetic::<V>(),
        crate::functions::computes(f),
        config.max_depth_values@.len() * config.learning_rate_values@.len() <= usize::MAX,
        config.max_depth_values@.len() * config.learning_rate_values@.len()
            * config.num_rounds_values@.len() <= usize::MAX,
    ensures
        r.0 == tree_params_of(f, *config, *rules, *usual, residual_std),
        r.1@ == tree_trials_of(
            f,
            *rules,
            tree_settings(*config),
            crate::number::above(residual_std, rules.high_variance_threshold),
            residual_range,
        ),
{
    let high_variance: bool = residual_std > rules.high_variance_threshold;
    let one: V = V::from(1u8);
    let ghost settings = tree_settings(*config);
    let mut best: TreeHyperparams<V> = *usual;
    let mut best_score: V = lowest_number();
    let mut trials: Vec<TreeTrial<V>> = Vec::new();
    let a: usize = config.max_depth_values.len();
    let b: usize = config.learning_rate_values.len();
    let c: usize = config.num_rounds_values.len();
    let total: usize = a * b * c;
    let mut m: usize = 0;
    assert(settings.take(0) =~= Seq::empty());
    while m < total
        invariant
            crate::number::arithmetic::<V>(),
            crate::functions::computes(f),
            one == crate::number::small::<V>(1),
            a == config.max_depth_values@.len(),
            b == config.learning_rate_values@.len(),
            c == config.num_rounds_values@.len(),
            total == a * b * c,
            settings == tree_settings(*config),
            m <= total,
            trials@ == tree_trials_of(
                f,
                *rules,
                settings.take(m as int),
                high_variance,
                residual_range,
            ),
            match best_tree(f, *rules, high_variance, settings.take(m as int)) {
                Some(i) => {
                    &&& 0 <= i < m
                    &&& best_score == tree_score(f, *rules, high_variance, settings[i])
                    &&& best == (TreeHyperparams {
                        max_depth: settings[i].0,
                        learning_rate: settings[i].1,
                        num_rounds: settings[i].2,
                        min_child_weight: crate::number::small(1),
                        subsample: crate::number::small(1),
                        colsample_bytree: crate::number::small(1),
                    })
                },
                None => best == *usual && best_score == crate::number::lowest::<V>(),
            },
        decreases total - m,
    {
        proof {
            lemma_setting(m as int, a as int, b as int, c as int);
            assert(settings.len() == total);
            assert(settings.take(m + 1).drop_last() =~= settings.take(m as int));
        }
        let max_depth: u32 = config.max_depth_values[m / c / b];
        let learning_rate: V = config.learning_rate_values[m / c % b];
        let num_rounds: u32 = config.num_rounds_values[m % c];
        assert(settings[m as int] == (max_depth, learning_rate, num_rounds));
        let score: V = score_tree(
            rules,
            high_variance,
            max_depth,
            learning_rate,
            num_rounds,
            f,
        );
        let simulated: V = residual_range / (one + magnitude(score));
        trials.push(
            TreeTrial { max_depth, learning_rate, num_rounds, residual_rmse: simulated },
        );
        assert(trials@ =~= tree_trials_of(
            f,
            *rules,
            settings.take(m + 1),
            high_variance,
            residual_range,
        ));
        if score > best_score {
            best_score = score;
            best = TreeHyperparams {
                max_depth,
                learning_rate,
                num_rounds,
                min_child_weight: one,
                subsample: one,
                colsample_bytree: one,
            };
        }
        m = m + 1;
    }
    proof {
        assert(settings.len() == total);
        assert(settings.take(m as int) =~= settings);
    }
    (best, trials)
}

proof fn lemma_setting(m: int, a: int, b: int, c: int)
    requires
        0 <= m < a * b * c,
        a >= 0,
        b >= 0,
        c >= 0,
    ensures
        c > 0,
        b > 0,
        0 <= m / c,
        0 <= m / c / b < a,
        0 <= m / c % b < b,
        0 <= m % c < c,
{
    assert(c > 0 && a * b > 0) by (nonlinear_arith)
        requires
            0 <= m < a * b * c,
            a >= 0,
            b >= 0,
            c >= 0,
    ;
    assert(b > 0) by (nonlinear_arith)
        requires
            a * b > 0,
            a >= 0,
            b >= 0,
    ;
    let d = m / c;
    assert(0 <= d < a * b) by (nonlinear_arith)
        requires
            0 <= m < a * b * c,
            c > 0,
            d == m / c,
    ;
    assert(0 <= d / b < a) by (nonlinear_arith)
        requires
            0 <= d < a * b,
            b > 0,
    ;
    assert(0 <= d % b < b) by (nonlinear_arith)
        requires
            b > 0,
    ;
    assert(0 <= m % c < c) by (nonlinear_arith)
        requires
            c > 0,
    ;
}

/// Tunes a linear model and trees behind it.
#[derive(Debug, Clone)]
pub struct LttTuner<V> {
    /// The settings of tuning.
    pub config: LttTunerConfig<V>,
    /// The rules by which settings are chosen.
    pub rules: LttRules<V>,
    /// The settings of the trees, where nothing better is known.
    pub usual_tree: TreeHyperparams<V>,
}

/// The complaint about a table of the wrong size.
pub open spec fn size_mismatch_text(expected: nat, rows: nat, columns: nat, got: nat) -> Seq<
    char,
> {
    "Feature matrix size mismatch: expected "@ + crate::text::decimal(expected) + " ("@
        + crate::text::decimal(rows) + "\u{d7}"@ + crate::text::decimal(columns) + "), got "@
        + crate::text::decimal(got)
}

/// The complaint about too few rows.
pub open spec fn too_few_rows_text(rows: nat) -> Seq<char> {
    "Insufficient data for tuning: need at least 10 rows, got "@ + crate::text::decimal(rows)
}

/// What is wrong with data of these sizes, if anything is.
pub open spec fn data_complaint(features: nat, num_features: nat, targets: nat) -> Option<
    Seq<char>,
> {
    if num_features == 0 {
        Some("num_features must be greater than 0"@)
    } else if targets == 0 {
        Some("targets cannot be empty"@)
    } else if features == 0 {
        Some("features cannot be empty"@)
    } else if features != targets * num_features {
        Some(size_mismatch_text(targets * num_features, targets, num_features, features))
    } else if targets < 10 {
        Some(too_few_rows_text(targets))
    } else {
        None
    }
}

/// The complaint about a division of the data that leaves one part empty.
pub open spec fn empty_part_text(part: Seq<char>, shown: Seq<char>, rows: nat) -> Seq<char> {
    "Train/val split produced empty "@ + part + " set (val_ratio="@ + shown + ", num_rows="@
        + crate::text::decimal(rows) + ")"@
}

/// How many rows are held back.
pub open spec fn held_back<V: Number, F: Functions<V>>(f: &F, rows: usize, val_ratio: V) -> usize {
    crate::functions::whole_of(
        f,
        crate::functions::ceil_of(
            f,
            crate::number::times(
                crate::functions::count_of::<V, F>(f, rows),
                val_ratio,
            ),
        ),
    )
}

/// The last `held` rows are held back, and the others are the data of the
/// training.
pub open spec fn divides_data<V>(
    split: DataSplit<V>,
    features: Seq<V>,
    targets: Seq<V>,
    num_features: nat,
    held: nat,
) -> bool {
    let rows = targets.len() as int;
    let train = span(0, rows - held);
    let val = span(rows - held, rows);
    &&& split.train_features@ == rows_at(features, num_features, train)
    &&& split.train_targets@ == crate::tuner::evaluation::picked(targets, train)
    &&& split.val_features@ == rows_at(features, num_features, val)
    &&& split.val_targets@ == crate::tuner::evaluation::picked(targets, val)
    &&& split.num_features == num_features
}

impl<V: Number> LttTuner<V> {
    /// How many trials there are.
    pub open spec fn trial_count(self) -> nat {
        self.config.lambda_values@.len() * self.config.l1_ratio_values@.len()
            + self.config.max_depth_values@.len() * self.config.learning_rate_values@.len()
            * self.config.num_rounds_values@.len() + (if self.config.enable_joint_refinement {
            self.config.extrapolation_damping_values@.len()
        } else {
            0
        })
    }

    /// The numbers of trials can be represented.
    pub open spec fn counts_fit(self) -> bool {
        &&& self.config.max_depth_values@.len() * self.config.learning_rate_values@.len()
            <= usize::MAX
        &&& self.trial_count() <= usize::MAX
    }

    /// A tuner with these settings.
    pub fn new(
        config: LttTunerConfig<V>,
        rules: LttRules<V>,
        usual_tree: TreeHyperparams<V>,
    ) -> (r: Self)
        ensures
            r == (LttTuner { config, rules, usual_tree }),
    {
        LttTuner { config, rules, usual_tree }
    }

    /// How many trials there are.
    pub fn estimated_trials(&self) -> (r: usize)
        requires
            self.counts_fit(),
        ensures
            r == self.trial_count(),
    {
        let linear_trials: usize = self.config.lambda_values.len()
            * self.config.l1_ratio_values.len();
        let tree_trials: usize = self.config.max_depth_values.len()
            * self.config.learning_rate_values.len() * self.config.num_rounds_values.len();
        let joint_trials: usize = if self.config.enable_joint_refinement {
            self.config.extrapolation_damping_values.len()
        } else {
            0
        };
        linear_trials + tree_trials + joint_trials
    }

    /// Checks the settings and the sizes of the data.
    pub fn validate_inputs<F: Functions<V>>(
        &self,
        features: &[V],
        num_features: usize,
        targets: &[V],
        f: &F,
    ) -> (r: Result<()>)
        requires
            crate::number::arithmetic::<V>(),
            crate::functions::computes(f),
            self.config.complaint(f) is None && features@.len() > 0 ==> targets@.len()
                * num_features <= usize::MAX,
        ensures
            match self.config.complaint(f) {
                Some(text) => r is Err && r->Err_0.is_config(text),
                None => match data_complaint(
                    features@.len(),
                    num_features as nat,
                    targets@.len(),
                ) {
                    Some(text) => r is Err && r->Err_0.is_data(text),
                    None => r is Ok,
                },
            },
    {
        let checked = self.config.validate(f);
        if checked.is_err() {
            return checked;
        }
        if num_features == 0 {
            return Err(TreeBoostError::Data("num_features must be greater than 0".to_owned()));
        }
        if targets.len() == 0 {
            return Err(TreeBoostError::Data("targets cannot be empty".to_owned()));
        }
        if features.len() == 0 {
            return Err(TreeBoostError::Data("features cannot be empty".to_owned()));
        }
        let num_rows: usize = targets.len();
        let expected: usize = num_rows * num_features;
        if features.len() != expected {
            let a = decimal_string(expected as u64);
            let b = decimal_string(num_rows as u64);
            let c = decimal_string(num_features as u64);
            let d = decimal_string(features.len() as u64);
            let mut text = join5(
                "Feature matrix size mismatch: expected ",
                a.as_str(),
                " (",
                b.as_str(),
                "\u{d7}",
            );
            text.append(c.as_str());
            text.append("), got ");
            text.append(d.as_str());
            return Err(TreeBoostError::Data(text));
        }
        if num_rows < 10 {
            let got = decimal_string(num_rows as u64);
            return Err(
                TreeBoostError::Data(
                    join2(
                        "Insufficient data for tuning: need at least 10 rows, got ",
                        got.as_str(),
                    ),
                ),
            );
        }
        Ok(())
    }

    /// Divides the data: the last rows are held back.
    pub fn divide<F: Functions<V>>(
        &self,
        features: &[V],
        num_features: usize,
        targets: &[V],
        f: &F,
    ) -> (r: Result<DataSplit<V>>)
        requires
            crate::number::arithmetic::<V>(),
            crate::functions::computes(f),
            features@.len() == targets@.len() * num_features,
            held_back(f, targets@.len() as usize, self.config.val_ratio) <= targets@.len(),
        ensures
            ({
                let held = held_back(f, targets@.len() as usize, self.config.val_ratio);
                let shown = crate::functions::shown(f, self.config.val_ratio);
                if held == targets@.len() {
                    &&& r is Err
                    &&& r->Err_0.is_data(empty_part_text("training"@, shown, targets@.len()))
                } else if held == 0 {
                    &&& r is Err
                    &&& r->Err_0.is_data(empty_part_text("validation"@, shown, targets@.len()))
                } else {
                    &&& r is Ok
                    &&& divides_data(
                        r->Ok_0,
                        features@,
                        targets@,
                        num_features as nat,
                        held as nat,
                    )
                }
            }),
    {
        let num_rows: usize = targets.len();
        let rows: V = f.count(num_rows);
        let val_size: usize = f.whole(f.ceil(rows * self.config.val_ratio));
        let train_size: usize = num_rows - val_size;
        if train_size == 0 || val_size == 0 {
            let shown = show_number(f, self.config.val_ratio);
            let count = decimal_string(num_rows as u64);
            let part: &str = if train_size == 0 {
                "training"
            } else {
                "validation"
            };
            let mut text = join5(
                "Train/val split produced empty ",
                part,
                " set (val_ratio=",
                shown.as_str(),
                ", num_rows=",
            );
            text.append(count.as_str());
            text.append(")");
            return Err(TreeBoostError::Data(text));
        }
        let train_indices = list_span(0, train_size);
        let val_indices = list_span(train_size, num_rows);
        let (train_features, train_targets) = extract_split(
            features,
            targets,
            num_features,
            train_indices.as_slice(),
        );
        let (val_features, val_targets) = extract_split(
            features,
            targets,
            num_features,
            val_indices.as_slice(),
        );
        Ok(DataSplit { train_features, train_targets, val_features, val_targets, num_features })
    }

    /// The result of tuning divided data: what the phases give, one after the
    /// other, or the first error among them.
    pub open spec fn tuning_gives<F: Functions<V>, E, S, R>(
        self,
        f: &F,
        evaluate: &E,
        deviation: &S,
        range: &R,
        split: &DataSplit<V>,
        linear: Result<LinearPhase<V>>,
        joint: Result<(LinearHyperparams<V>, Vec<JointTrial<V>>)>,
        r: Result<LttTuningResult<V>>,
    ) -> bool where
        E: Fn(LinearQuery<V>, &DataSplit<V>) -> Result<LinearEvalResult<V>>,
        S: Fn(&[V]) -> V,
        R: Fn(&[V]) -> V,
     {
        &&& exists|results: Seq<LinearEvalResult<V>>| #[trigger]
            linear_phase_gives(self.config, self.rules, evaluate, split, results, linear)
        &&& match linear {
            Err(e) => r is Err && r->Err_0 == e,
            Ok(phase) => {
                let shrinkage = shrinkage_of(
                    f,
                    self.config.shrinkage_factor_values@,
                    self.rules,
                    phase.r2,
                    phase.val_preds@,
                    split.val_targets@,
                );
                let chosen = LinearHyperparams { shrinkage_factor: shrinkage, ..phase.params };
                &&& self.config.enable_joint_refinement ==> exists|
                    results: Seq<LinearEvalResult<V>>,
                | #[trigger]
                    joint_phase_gives(self.config, chosen, evaluate, split, results, joint)
                &&& !self.config.enable_joint_refinement ==> joint is Ok && joint->Ok_0.0 == chosen
                    && joint->Ok_0.1@.len() == 0
                &&& match joint {
                    Err(e) => r is Err && r->Err_0 == e,
                    Ok(refined) => {
                        let query = LinearQuery {
                            lambda: refined.0.lambda,
                            l1_ratio: refined.0.l1_ratio,
                            shrinkage_factor: Some(refined.0.shrinkage_factor),
                            extrapolation_damping: Some(refined.0.extrapolation_damping),
                        };
                        match r {
                            Err(e) => call_ensures(
                                *evaluate,
                                (query, split),
                                Err::<LinearEvalResult<V>, TreeBoostError>(e),
                            ),
                            Ok(done) => {
                                &&& done.linear_params == refined.0
                                &&& done.linear_r2 == phase.r2
                                &&& exists|last: LinearEvalResult<V>| #[trigger]
                                    call_ensures(
                                        *evaluate,
                                        (query, split),
                                        Ok::<LinearEvalResult<V>, TreeBoostError>(last),
                                    ) && done.final_rmse == last.rmse
                                &&& exists|left: &[V], std: V, width: V|
                                    {
                                        &&& left@ == leftover(
                                            split.train_targets@,
                                            phase.train_preds@,
                                            shrinkage,
                                        )
                                        &&& #[trigger] call_ensures(*deviation, (left,), std)
                                        &&& #[trigger] call_ensures(*range, (left,), width)
                                        &&& done.tree_params == tree_params_of(
                                            f,
                                            self.config,
                                            self.rules,
                                            self.usual_tree,
                                            std,
                                        )
                                        &&& done.history.tree_trials@ == tree_trials_of(
                                            f,
                                            self.rules,
                                            tree_settings(self.config),
                                            crate::number::above(
                                                std,
                                                self.rules.high_variance_threshold,
                                            ),
                                            width,
                                        )
                                    }
                                &&& done.history.linear_trials@ == phase.trials@
                                &&& done.history.joint_trials@ == refined.1@
                            },
                        }
                    },
                }
            },
        }
    }

    /// Tunes with divided data. `evaluate` fits a linear model, `deviation` and
    /// `range` compute the standard deviation and the range of a list, and
    /// `clock` gives the time in milliseconds.
    pub fn tune_split<F: Functions<V>, E, S, R, K>(
        &self,
        split: &DataSplit<V>,
        evaluate: &E,
        deviation: &S,
        range: &R,
        clock: &K,
        f: &F,
    ) -> (r: Result<LttTuningResult<V>>)
        where
            E: Fn(LinearQuery<V>, &DataSplit<V>) -> Result<LinearEvalResult<V>>,
            S: Fn(&[V]) -> V,
            R: Fn(&[V]) -> V,
            K: Fn() -> u64,

        requires
            crate::number::arithmetic::<V>(),
            crate::functions::computes(f),
            self.counts_fit(),
            forall|q: LinearQuery<V>, s: &DataSplit<V>| #[trigger]
                call_requires(*evaluate, (q, s)),
            forall|list: &[V]| #[trigger] call_requires(*deviation, (list,)),
            forall|list: &[V]| #[trigger] call_requires(*range, (list,)),
            call_requires(*clock, ()),
        ensures
            exists|
                linear: Result<LinearPhase<V>>,
                joint: Result<(LinearHyperparams<V>, Vec<JointTrial<V>>)>,
            | #[trigger]
                self.tuning_gives(f, evaluate, deviation, range, split, linear, joint, r),
            r is Ok ==> timed(clock, self.config.enable_joint_refinement, r->Ok_0),
    {
        let start: u64 = clock();
        let linear = tune_linear_phase(&self.config, &self.rules, evaluate, split);
        let ghost linear_result = linear;
        let ghost no_joint: Result<(LinearHyperparams<V>, Vec<JointTrial<V>>)> = arbitrary();
        let phase = match linear {
            Ok(phase) => phase,
            Err(e) => {
                assert(self.tuning_gives(
                    f,
                    evaluate,
                    deviation,
                    range,
                    split,
                    linear_result,
                    no_joint,
                    Err(e),
                ));
                return Err(e);
            },
        };
        let after_linear: u64 = clock();
        let shrinkage: V = select_shrinkage_factor(
            &self.config,
            &self.rules,
            phase.r2,
            phase.val_preds.as_slice(),
            split.val_targets.as_slice(),
            f,
        );
        let chosen = LinearHyperparams { shrinkage_factor: shrinkage, ..phase.params };
        let left = residuals(
            split.train_targets.as_slice(),
            phase.train_preds.as_slice(),
            shrinkage,
        );
        let before_tree: u64 = clock();
        let list = left.as_slice();
        let residual_std: V = deviation(list);
        let residual_range: V = range(list);
        let (tree_params, tree_trials) = tune_tree_phase(
            &self.config,
            &self.rules,
            &self.usual_tree,
            residual_std,
            residual_range,
            f,
        );
        let after_tree: u64 = clock();
        let joint: Result<(LinearHyperparams<V>, Vec<JointTrial<V>>)> =
            if self.config.enable_joint_refinement {
            tune_joint_phase(&self.config, &chosen, evaluate, split)
        } else {
            Ok((chosen, Vec::new()))
        };
        let ghost joint_result = joint;
        let (final_linear, joint_trials) = match joint {
            Ok(found) => found,
            Err(e) => {
                assert(self.tuning_gives(
                    f,
                    evaluate,
                    deviation,
                    range,
                    split,
                    linear_result,
                    joint_result,
                    Err(e),
                ));
                return Err(e);
            },
        };
        let after_joint: u64 = clock();
        let query = final_linear.to_config();
        let last = match evaluate(query, split) {
            Ok(last) => last,
            Err(e) => {
                assert(self.tuning_gives(
                    f,
                    evaluate,
                    deviation,
                    range,
                    split,
                    linear_result,
                    joint_result,
                    Err(e),
                ));
                return Err(e);
            },
        };
        let end: u64 = clock();
        let joint_time: u64 = if self.config.enable_joint_refinement {
            elapsed(after_tree, after_joint)
        } else {
            0
        };
        let done = LttTuningResult {
            linear_params: final_linear,
            tree_params,
            linear_r2: phase.r2,
            final_rmse: last.rmse,
            total_time: elapsed(start, end),
            phase_times: PhaseTimes {
                linear_phase: elapsed(start, after_linear),
                tree_phase: elapsed(before_tree, after_tree),
                joint_phase: joint_time,
            },
            history: LttTuningHistory { linear_trials: phase.trials, tree_trials, joint_trials },
        };
        proof {
            assert(call_ensures(*deviation, (list,), residual_std));
            assert(call_ensures(*range, (list,), residual_range));
            assert(call_ensures(
                *evaluate,
                (query, split),
                Ok::<LinearEvalResult<V>, TreeBoostError>(last),
            ));
            assert(self.tuning_gives(
                f,
                evaluate,
                deviation,
                range,
                split,
                linear_result,
                joint_result,
                Ok(done),
            ));
            let t = seq![start, after_linear, before_tree, after_tree, after_joint, end];
            assert(done.phase_times == phase_times_of(t, self.config.enable_joint_refinement));
        }
        Ok(done)
    }

    /// Tunes: checks the settings and the data, divides the data, and goes
    /// through the phases.
    pub fn tune<F: Functions<V>, E, S, R, K>(
        &self,
        features: &[V],
        num_features: usize,
        targets: &[V],
        evaluate: &E,
        deviation: &S,
        range: &R,
        clock: &K,
        f: &F,
    ) -> (r: Result<LttTuningResult<V>>)
        where
            E: Fn(LinearQuery<V>, &DataSplit<V>) -> Result<LinearEvalResult<V>>,
            S: Fn(&[V]) -> V,
            R: Fn(&[V]) -> V,
            K: Fn() -> u64,

        requires
            crate::number::arithmetic::<V>(),
            crate::functions::computes(f),
            self.config.complaint(f) is None && features@.len() > 0 ==> targets@.len()
                * num_features <= usize::MAX,
            self.config.complaint(f) is None && data_complaint(
                features@.len(),
                num_features as nat,
                targets@.len(),
            ) is None ==> {
                &&& self.counts_fit()
                &&& held_back(f, targets@.len() as usize, self.config.val_ratio) <= targets@.len()
            },
            forall|q: LinearQuery<V>, s: &DataSplit<V>| #[trigger]
                call_requires(*evaluate, (q, s)),
            forall|list: &[V]| #[trigger] call_requires(*deviation, (list,)),
            forall|list: &[V]| #[trigger] call_requires(*range, (list,)),
            call_requires(*clock, ()),
        ensures
            ({
                let held = held_back(f, targets@.len() as usize, self.config.val_ratio);
                let shown = crate::functions::shown(f, self.config.val_ratio);
                match self.config.complaint(f) {
                    Some(text) => r is Err && r->Err_0.is_config(text),
                    None => match data_complaint(
                        features@.len(),
                        num_features as nat,
                        targets@.len(),
                    ) {
                        Some(text) => r is Err && r->Err_0.is_data(text),
                        None => if held == targets@.len() {
                            &&& r is Err
                            &&& r->Err_0.is_data(
                                empty_part_text("training"@, shown, targets@.len()),
                            )
                        } else if held == 0 {
                            &&& r is Err
                            &&& r->Err_0.is_data(
                                empty_part_text("validation"@, shown, targets@.len()),
                            )
                        } else {
                            exists|
                                split: DataSplit<V>,
                                linear: Result<LinearPhase<V>>,
                                joint: Result<(LinearHyperparams<V>, Vec<JointTrial<V>>)>,
                            |
                                {
                                    &&& divides_data(
                                        split,
                                        features@,
                                        targets@,
                                        num_features as nat,
                                        held as nat,
                                    )
                                    &&& #[trigger] self.tuning_gives(
                                        f,
                                        evaluate,
                                        deviation,
                                        range,
                                        &split,
                                        linear,
                                        joint,
                                        r,
                                    )
                                }
                        },
                    },
                }
            }),
            r is Ok ==> timed(clock, self.config.enable_joint_refinement, r->Ok_0),
    {
        match self.validate_inputs(features, num_features, targets, f) {
            Ok(_) => {},
            Err(e) => {
                return Err(e);
            },
        }
        match self.divide(features, num_features, targets, f) {
            Ok(split) => self.tune_split(&split, evaluate, deviation, range, clock, f),
            Err(e) => Err(e),
        }
    }
}

/// The time from `from` to `to`; none, if the clock was set back.
pub open spec fn time_between(from: u64, to: u64) -> u64 {
    if to < from {
        0
    } else {
        (to - from) as u64
    }
}

/// Computes [`time_between`].
pub fn elapsed(from: u64, to: u64) -> (r: u64)
    ensures
        r == time_between(from, to),
{
    if to < from {
        0
    } else {
        to - from
    }
}

/// How long the phases took, where `t` are the readings of a clock at the start,
/// after the linear models, before and after the trees, after the damping and at
/// the end. The damping takes no time where it is not tuned.
pub open spec fn phase_times_of(t: Seq<u64>, joint: bool) -> PhaseTimes {
    PhaseTimes {
        linear_phase: time_between(t[0], t[1]),
        tree_phase: time_between(t[2], t[3]),
        joint_phase: if joint {
            time_between(t[3], t[4])
        } else {
            0
        },
    }
}

/// The times of a result are those between readings of a clock.
pub open spec fn timed<V, K: Fn() -> u64>(
    clock: &K,
    joint: bool,
    done: LttTuningResult<V>,
) -> bool {
    exists|t: Seq<u64>|
        {
            &&& t.len() == 6
            &&& forall|i: int| 0 <= i < t.len() ==> call_ensures(*clock, (), #[trigger] t[i])
            &&& done.phase_times == #[trigger] phase_times_of(t, joint)
            &&& done.total_time == time_between(t[0], t[5])
        }
}

/// The fit that is found best is the first of the greatest coefficient of
/// determination; none is found only if none is above minus infinity.
pub proof fn law_best_fit_is_first_of_greatest<V: Number>(results: Seq<LinearEvalResult<V>>)
    requires
        crate::number::ordered::<V>(),
        crate::number::ranked::<V>(),
        crate::number::mirrored::<V>(),
        crate::number::decided::<V>(),
    ensures
        match best_fit(results) {
            Some(b) => {
                &&& 0 <= b < results.len()
                &&& crate::number::above(results[b].r2, crate::number::lowest())
                &&& forall|i: int|
                    0 <= i < results.len() ==> !crate::number::above((#[trigger] results[i]).r2, results[b].r2)
                &&& forall|i: int|
                    0 <= i < b && !crate::number::missing((#[trigger] results[i]).r2)
                        ==> crate::number::above(results[b].r2, results[i].r2)
            },
            None => forall|i: int|
                0 <= i < results.len() ==> !crate::number::above((#[trigger] results[i]).r2, crate::number::lowest()),
        },
    decreases results.len(),
{
    if results.len() > 0 {
        let fewer = results.drop_last();
        law_best_fit_is_first_of_greatest(fewer);
        let last = results.len() - 1;
        let v = results[last].r2;
        let limit = match best_fit(fewer) {
            Some(i) => results[i].r2,
            None => crate::number::lowest(),
        };
        if crate::number::above(v, limit) {
            assert forall|i: int| 0 <= i < results.len() implies !crate::number::above((#[trigger] results[i]).r2, v) by {
                if i < last {
                    assert(results[i] == fewer[i]);
                    if crate::number::above(results[i].r2, v) {
                        assert(crate::number::above(results[i].r2, limit));
                    }
                }
            }
            assert forall|i: int|
                0 <= i < last && !crate::number::missing((#[trigger] results[i]).r2) implies crate::number::above(v, results[i].r2) by {
                assert(results[i] == fewer[i]);
                assert(!crate::number::above(results[i].r2, limit));
            }
        } else {
            assert forall|i: int| 0 <= i < last implies #[trigger] results[i] == fewer[i] by {}
            assert(results[last] == results.last());
        }
    }
}

/// The result that is found best is the first of the least error; none is found
/// only if none is below infinity.
pub proof fn law_least_error_is_first_of_least<V: Number>(results: Seq<LinearEvalResult<V>>)
    requires
        crate::number::ordered::<V>(),
        crate::number::ranked::<V>(),
        crate::number::mirrored::<V>(),
        crate::number::decided::<V>(),
    ensures
        match least_error(results) {
            Some(b) => {
                &&& 0 <= b < results.len()
                &&& crate::number::below(results[b].rmse, crate::number::highest())
                &&& forall|i: int|
                    0 <= i < results.len() ==> !crate::number::below((#[trigger] results[i]).rmse, results[b].rmse)
                &&& forall|i: int|
                    0 <= i < b && !crate::number::missing((#[trigger] results[i]).rmse)
                        ==> crate::number::below(results[b].rmse, results[i].rmse)
            },
            None => forall|i: int|
                0 <= i < results.len() ==> !crate::number::below((#[trigger] results[i]).rmse, crate::number::highest()),
        },
    decreases results.len(),
{
    if results.len() > 0 {
        let fewer = results.drop_last();
        law_least_error_is_first_of_least(fewer);
        let last = results.len() - 1;
        let v = results[last].rmse;
        let limit = match least_error(fewer) {
            Some(i) => results[i].rmse,
            None => crate::number::highest(),
        };
        if crate::number::below(v, limit) {
            assert forall|i: int| 0 <= i < results.len() implies !crate::number::below((#[trigger] results[i]).rmse, v) by {
                if i < last {
                    assert(results[i] == fewer[i]);
                    if crate::number::below(results[i].rmse, v) {
                        assert(crate::number::below(results[i].rmse, limit));
                    }
                }
            }
            assert forall|i: int|
                0 <= i < last && !crate::number::missing((#[trigger] results[i]).rmse) implies crate::number::below(v, results[i].rmse) by {
                assert(results[i] == fewer[i]);
                assert(!crate::number::below(results[i].rmse, limit));
            }
        } else {
            assert forall|i: int| 0 <= i < last implies #[trigger] results[i] == fewer[i] by {}
            assert(results[last] == results.last());
        }
    }
}

/// The contribution that is chosen is the first of those that leave least over;
/// none is chosen only if all leave infinitely much.
pub proof fn law_least_leftover_is_first_of_least<V: Number, F: Functions<V>>(
    f: &F,
    candidates: Seq<V>,
    targets: Seq<V>,
    preds: Seq<V>,
)
    requires
        crate::number::ordered::<V>(),
        crate::number::ranked::<V>(),
        crate::number::mirrored::<V>(),
        crate::number::decided::<V>(),
    ensures
        match least_leftover(f, candidates, targets, preds) {
            Some(b) => {
                &&& 0 <= b < candidates.len()
                &&& crate::number::below(leftover_square(f, targets, preds, candidates[b]), crate::number::highest())
                &&& forall|i: int|
                    0 <= i < candidates.len() ==> !crate::number::below(leftover_square(f, targets, preds, (#[trigger] candidates[i])), leftover_square(f, targets, preds, candidates[b]))
                &&& forall|i: int|
                    0 <= i < b && !crate::number::missing(leftover_square(f, targets, preds, (#[trigger] candidates[i])))
                        ==> crate::number::below(leftover_square(f, targets, preds, candidates[b]), leftover_square(f, targets, preds, candidates[i]))
            },
            None => forall|i: int|
                0 <= i < candidates.len() ==> !crate::number::below(leftover_square(f, targets, preds, (#[trigger] candidates[i])), crate::number::highest()),
        },
    decreases candidates.len(),
{
    if candidates.len() > 0 {
        let fewer = candidates.drop_last();
        law_least_leftover_is_first_of_least(f, fewer, targets, preds);
        let last = candidates.len() - 1;
        let v = leftover_square(f, targets, preds, candidates[last]);
        let limit = match least_leftover(f, fewer, targets, preds) {
            Some(i) => leftover_square(f, targets, preds, candidates[i]),
            None => crate::number::highest(),
        };
        if crate::number::below(v, limit) {
            assert forall|i: int| 0 <= i < candidates.len() implies !crate::number::below(leftover_square(f, targets, preds, (#[trigger] candidates[i])), v) by {
                if i < last {
                    assert(candidates[i] == fewer[i]);
                    if crate::number::below(leftover_square(f, targets, preds, candidates[i]), v) {
                        assert(crate::number::below(leftover_square(f, targets, preds, candidates[i]), limit));
                    }
                }
            }
            assert forall|i: int|
                0 <= i < last && !crate::number::missing(leftover_square(f, targets, preds, (#[trigger] candidates[i]))) implies crate::number::below(v, leftover_square(f, targets, preds, candidates[i])) by {
                assert(candidates[i] == fewer[i]);
                assert(!crate::number::below(leftover_square(f, targets, preds, candidates[i]), limit));
            }
        } else {
            assert forall|i: int| 0 <= i < last implies #[trigger] candidates[i] == fewer[i] by {}
            assert(candidates[last] == candidates.last());
        }
    }
}

/// The settings that are found best are the first of the greatest score; none are
/// found only if no score is above minus infinity.
pub proof fn law_best_tree_is_first_of_greatest<V: Number, F: Functions<V>>(
    f: &F,
    rules: LttRules<V>,
    high_variance: bool,
    settings: Seq<(u32, V, u32)>,
)
    requires
        crate::number::ordered::<V>(),
        crate::number::ranked::<V>(),
        crate::number::mirrored::<V>(),
        crate::number::decided::<V>(),
    ensures
        match best_tree(f, rules, high_variance, settings) {
            Some(b) => {
                &&& 0 <= b < settings.len()
                &&& crate::number::above(tree_score(f, rules, high_variance, settings[b]), crate::number::lowest())
                &&& forall|i: int|
                    0 <= i < settings.len() ==> !crate::number::above(tree_score(f, rules, high_variance, (#[trigger] settings[i])), tree_score(f, rules, high_variance, settings[b]))
                &&& forall|i: int|
                    0 <= i < b && !crate::number::missing(tree_score(f, rules, high_variance, (#[trigger] settings[i])))
                        ==> crate::number::above(tree_score(f, rules, high_variance, settings[b]), tree_score(f, rules, high_variance, settings[i]))
            },
            None => forall|i: int|
                0 <= i < settings.len() ==> !crate::number::above(tree_score(f, rules, high_variance, (#[trigger] settings[i])), crate::number::lowest()),
        },
    decreases settings.len(),
{
    if settings.len() > 0 {
        let fewer = settings.drop_last();
        law_best_tree_is_first_of_greatest(f, rules, high_variance, fewer);
        let last = settings.len() - 1;
        let v = tree_score(f, rules, high_variance, settings[last]);
        let limit = match best_tree(f, rules, high_variance, fewer) {
            Some(i) => tree_score(f, rules, high_variance, settings[i]),
            None => crate::number::lowest(),
        };
        if crate::number::above(v, limit) {
            assert forall|i: int| 0 <= i < settings.len() implies !crate::number::above(tree_score(f, rules, high_variance, (#[trigger] settings[i])), v) by {
                if i < last {
                    assert(settings[i] == fewer[i]);
                    if crate::number::above(tree_score(f, rules, high_variance, settings[i]), v) {
                        assert(crate::number::above(tree_score(f, rules, high_variance, settings[i]), limit));
                    }
                }
            }
            assert forall|i: int|
                0 <= i < last && !crate::number::missing(tree_score(f, rules, high_variance, (#[trigger] settings[i]))) implies crate::number::above(v, tree_score(f, rules, high_variance, settings[i])) by {
                assert(settings[i] == fewer[i]);
                assert(!crate::number::above(tree_score(f, rules, high_variance, settings[i]), limit));
            }
        } else {
            assert forall|i: int| 0 <= i < last implies #[trigger] settings[i] == fewer[i] by {}
            assert(settings[last] == settings.last());
        }
    }
}

/// Settings of the linear model are those of a trial: the first of the greatest
/// coefficient of determination.
pub open spec fn chosen_from<V: Number>(
    trials: Seq<LinearTrial<V>>,
    lambda: V,
    l1_ratio: V,
    r2: V,
) -> bool {
    &&& forall|i: int|
        0 <= i < trials.len() ==> !crate::number::above((#[trigger] trials[i]).r2, r2)
    &&& exists|b: int|
        {
            &&& 0 <= b < trials.len()
            &&& (#[trigger] trials[b]).r2 == r2
            &&& trials[b].lambda == lambda
            &&& trials[b].l1_ratio == l1_ratio
            &&& forall|i: int|
                0 <= i < b && !crate::number::missing((#[trigger] trials[i]).r2)
                    ==> crate::number::above(r2, trials[i].r2)
        }
}

/// Where the linear phase succeeds, it gives the settings of the first of the
/// greatest coefficient of determination among its trials.
pub proof fn law_linear_phase_gives_the_best<V: Number, E>(
    config: LttTunerConfig<V>,
    rules: LttRules<V>,
    evaluate: &E,
    split: &DataSplit<V>,
    results: Seq<LinearEvalResult<V>>,
    phase: LinearPhase<V>,
) where E: Fn(LinearQuery<V>, &DataSplit<V>) -> Result<LinearEvalResult<V>>
    requires
        crate::number::ordered::<V>(),
        crate::number::ranked::<V>(),
        crate::number::mirrored::<V>(),
        crate::number::decided::<V>(),
        linear_phase_gives(config, rules, evaluate, split, results, Ok(phase)),
    ensures
        chosen_from(phase.trials@, phase.params.lambda, phase.params.l1_ratio, phase.r2),
{
    law_best_fit_is_first_of_greatest(results);
    let b = best_fit(results)->0;
    let trials = phase.trials@;
    assert(trials[b].r2 == results[b].r2);
    assert forall|i: int| 0 <= i < trials.len() implies !crate::number::above(
        (#[trigger] trials[i]).r2,
        phase.r2,
    ) by {
        assert(trials[i].r2 == results[i].r2);
    }
    assert forall|i: int|
        0 <= i < b && !crate::number::missing((#[trigger] trials[i]).r2) implies
        crate::number::above(phase.r2, trials[i].r2) by {
        assert(trials[i].r2 == results[i].r2);
    }
}

/// Every strength of the regularisation is tried with every share of the absolute
/// values, and what is noted of a trial is what came of fitting the model.
pub proof fn law_linear_phase_tries_all<V: Number, E>(
    config: LttTunerConfig<V>,
    rules: LttRules<V>,
    evaluate: &E,
    split: &DataSplit<V>,
    results: Seq<LinearEvalResult<V>>,
    phase: LinearPhase<V>,
    a: int,
    c: int,
) where E: Fn(LinearQuery<V>, &DataSplit<V>) -> Result<LinearEvalResult<V>>
    requires
        linear_phase_gives(config, rules, evaluate, split, results, Ok(phase)),
        0 <= a < config.lambda_values@.len(),
        0 <= c < config.l1_ratio_values@.len(),
    ensures
        phase.trials@.len() == config.lambda_values@.len() * config.l1_ratio_values@.len(),
        exists|m: int, fit: LinearEvalResult<V>|
            {
                &&& 0 <= m < phase.trials@.len()
                &&& #[trigger] call_ensures(
                    *evaluate,
                    (
                        LinearQuery {
                            lambda: config.lambda_values@[a],
                            l1_ratio: config.l1_ratio_values@[c],
                            shrinkage_factor: None,
                            extrapolation_damping: None,
                        },
                        split,
                    ),
                    Ok::<LinearEvalResult<V>, TreeBoostError>(fit),
                )
                &&& #[trigger] phase.trials@[m] == (LinearTrial {
                    lambda: config.lambda_values@[a],
                    l1_ratio: config.l1_ratio_values@[c],
                    r2: fit.r2,
                    rmse: fit.rmse,
                })
            },
{
    let n = config.l1_ratio_values@.len() as int;
    let k = config.lambda_values@.len() as int;
    let m = a * n + c;
    assert(0 <= m < k * n && m / n == a && m % n == c) by (nonlinear_arith)
        requires
            0 <= a < k,
            0 <= c < n,
            m == a * n + c,
    ;
    let queries = linear_queries(config);
    assert(phase.trials@[m] == linear_trials_of(queries, results)[m]);
    assert(call_ensures(
        *evaluate,
        (queries[m], split),
        Ok::<LinearEvalResult<V>, TreeBoostError>(results[m]),
    ));
}

impl<V: Number> LttTuner<V> {
    /// Where tuning succeeds, the settings of the linear model and their
    /// coefficient of determination are those of the best trial of the linear
    /// phase; the damping is that of the least error, where it is tuned and some
    /// error is finite.
    pub proof fn law_tuning_gives_the_best<F: Functions<V>, E, S, R>(
        self,
        f: &F,
        evaluate: &E,
        deviation: &S,
        range: &R,
        split: &DataSplit<V>,
        linear: Result<LinearPhase<V>>,
        joint: Result<(LinearHyperparams<V>, Vec<JointTrial<V>>)>,
        done: LttTuningResult<V>,
    ) where
        E: Fn(LinearQuery<V>, &DataSplit<V>) -> Result<LinearEvalResult<V>>,
        S: Fn(&[V]) -> V,
        R: Fn(&[V]) -> V,

        requires
            crate::number::ordered::<V>(),
            crate::number::ranked::<V>(),
            crate::number::mirrored::<V>(),
            crate::number::decided::<V>(),
            self.tuning_gives(f, evaluate, deviation, range, split, linear, joint, Ok(done)),
        ensures
            chosen_from(
                done.history.linear_trials@,
                done.linear_params.lambda,
                done.linear_params.l1_ratio,
                done.linear_r2,
            ),
            !self.config.enable_joint_refinement ==> done.history.joint_trials@.len() == 0,
            self.config.enable_joint_refinement ==> {
                let trials = done.history.joint_trials@;
                &&& trials.len() == self.config.extrapolation_damping_values@.len()
                &&& (forall|i: int|
                    0 <= i < trials.len() ==> (#[trigger] trials[i]).extrapolation_damping
                        == self.config.extrapolation_damping_values@[i])
                &&& (exists|i: int|
                    0 <= i < trials.len() && crate::number::below(
                        (#[trigger] trials[i]).combined_rmse,
                        crate::number::highest(),
                    )) ==> exists|b: int|
                    {
                        &&& 0 <= b < trials.len()
                        &&& (#[trigger] trials[b]).extrapolation_damping
                            == done.linear_params.extrapolation_damping
                        &&& forall|i: int|
                            0 <= i < trials.len() ==> !crate::number::below(
                                (#[trigger] trials[i]).combined_rmse,
                                trials[b].combined_rmse,
                            )
                    }
            },
    {
        let found = choose|results: Seq<LinearEvalResult<V>>| #[trigger]
            linear_phase_gives(self.config, self.rules, evaluate, split, results, linear);
        let phase = linear->Ok_0;
        law_linear_phase_gives_the_best(self.config, self.rules, evaluate, split, found, phase);
        if self.config.enable_joint_refinement {
            let shrinkage = shrinkage_of(
                f,
                self.config.shrinkage_factor_values@,
                self.rules,
                phase.r2,
                phase.val_preds@,
                split.val_targets@,
            );
            let chosen = LinearHyperparams { shrinkage_factor: shrinkage, ..phase.params };
            let results = choose|results: Seq<LinearEvalResult<V>>| #[trigger]
                joint_phase_gives(self.config, chosen, evaluate, split, results, joint);
            law_least_error_is_first_of_least(results);
            let trials = done.history.joint_trials@;
            assert forall|i: int| 0 <= i < trials.len() implies (#[trigger] trials[i]).combined_rmse
                == results[i].rmse by {}
            if exists|i: int|
                0 <= i < trials.len() && crate::number::below(
                    (#[trigger] trials[i]).combined_rmse,
                    crate::number::highest(),
                ) {
                let i = choose|i: int|
                    0 <= i < trials.len() && crate::number::below(
                        (#[trigger] trials[i]).combined_rmse,
                        crate::number::highest(),
                    );
                assert(results[i].rmse == trials[i].combined_rmse);
                let b = least_error(results)->0;
                assert(trials[b].combined_rmse == results[b].rmse);
                assert forall|i: int| 0 <= i < trials.len() implies !crate::number::below(
                    (#[trigger] trials[i]).combined_rmse,
                    trials[b].combined_rmse,
                ) by {
                    assert(trials[i].combined_rmse == results[i].rmse);
                }
            }
        }
    }
}

/// The settings of the trees are taken from the lists, and none that can be made
/// of the lists has a greater score.
pub proof fn law_tree_settings_are_best<V: Number, F: Functions<V>>(
    f: &F,
    config: LttTunerConfig<V>,
    rules: LttRules<V>,
    usual: TreeHyperparams<V>,
    residual_std: V,
    a: int,
    b: int,
    c: int,
)
    requires
        crate::number::ordered::<V>(),
        crate::number::ranked::<V>(),
        crate::number::mirrored::<V>(),
        crate::number::decided::<V>(),
        0 <= a < config.max_depth_values@.len(),
        0 <= b < config.learning_rate_values@.len(),
        0 <= c < config.num_rounds_values@.len(),
    ensures
        ({
            let high = crate::number::above(residual_std, rules.high_variance_threshold);
            let best = tree_params_of(f, config, rules, usual, residual_std);
            let score = tree_score(
                f,
                rules,
                high,
                (
                    config.max_depth_values@[a],
                    config.learning_rate_values@[b],
                    config.num_rounds_values@[c],
                ),
            );
            crate::number::above(score, crate::number::lowest()) ==> {
                &&& config.max_depth_values@.contains(best.max_depth)
                &&& config.learning_rate_values@.contains(best.learning_rate)
                &&& config.num_rounds_values@.contains(best.num_rounds)
                &&& !crate::number::above(
                    score,
                    tree_score(
                        f,
                        rules,
                        high,
                        (best.max_depth, best.learning_rate, best.num_rounds),
                    ),
                )
            }
        }),
{
    let high = crate::number::above(residual_std, rules.high_variance_threshold);
    let settings = tree_settings(config);
    law_best_tree_is_first_of_greatest(f, rules, high, settings);
    let p = config.max_depth_values@.len() as int;
    let q = config.learning_rate_values@.len() as int;
    let r = config.num_rounds_values@.len() as int;
    let d = a * q + b;
    let m = d * r + c;
    assert(0 <= d < p * q && d / q == a && d % q == b) by (nonlinear_arith)
        requires
            0 <= a < p,
            0 <= b < q,
            d == a * q + b,
    ;
    assert(0 <= m < p * q * r && m / r == d && m % r == c) by (nonlinear_arith)
        requires
            0 <= d < p * q,
            0 <= c < r,
            m == d * r + c,
    ;
    assert(settings[m] == (
        config.max_depth_values@[a],
        config.learning_rate_values@[b],
        config.num_rounds_values@[c],
    ));
    if crate::number::above(
        tree_score(f, rules, high, settings[m]),
        crate::number::lowest(),
    ) {
        let i = best_tree(f, rules, high, settings)->0;
        lemma_setting(i, p, q, r);
        assert(config.max_depth_values@[i / r / q] == settings[i].0);
        assert(config.learning_rate_values@[i / r % q] == settings[i].1);
        assert(config.num_rounds_values@[i % r] == settings[i].2);
        let best = tree_params_of(f, config, rules, usual, residual_std);
        assert(settings[i] == (best.max_depth, best.learning_rate, best.num_rounds));
    }
}

/// Settings of the trees are extreme: deep trees, and small steps, count twice.
pub open spec fn extremes<V: Number>(
    worth: spec_fn(V) -> real,
    rules: LttRules<V>,
    t: (u32, V, u32),
) -> real {
    (if t.0 > rules.max_depth_threshold {
        1real
    } else {
        0real
    }) + (if worth(t.1) < worth(rules.min_lr_threshold) {
        1real
    } else {
        0real
    })
}

/// How the scores of two settings differ. Where the residuals vary much, each
/// step of depth and each round adds its weight, and a faster rate costs; where
/// they vary little, depth and a faster rate add, and rounds cost. Either way,
/// each extreme costs its penalty.
pub proof fn law_tree_scores_differ_by_weights<V: Number, F: Functions<V>>(
    worth: spec_fn(V) -> real,
    f: &F,
    rules: LttRules<V>,
    high_variance: bool,
    s: (u32, V, u32),
    t: (u32, V, u32),
)
    requires
        crate::exact::exact(worth),
        crate::exact::counts(f, worth),
    ensures
        ({
            let depth = t.0 as real - s.0 as real;
            let rate = worth(t.1) - worth(s.1);
            let rounds = t.2 as real - s.2 as real;
            let extreme = extremes(worth, rules, t) - extremes(worth, rules, s);
            worth(tree_score(f, rules, high_variance, t)) - worth(
                tree_score(f, rules, high_variance, s),
            ) == (if high_variance {
                depth * worth(rules.depth_weight_high_var) + rounds * worth(
                    rules.rounds_weight_high_var,
                ) - rate * worth(rules.lr_penalty_high_var)
            } else {
                depth * worth(rules.depth_weight_low_var) + rate * worth(rules.lr_weight_low_var)
                    - rounds * worth(rules.rounds_penalty_low_var)
            }) - extreme * worth(rules.extreme_config_penalty)
        }),
{
    let (d1, d2) = (s.0 as real, t.0 as real);
    let (l1, l2) = (worth(s.1), worth(t.1));
    let (r1, r2) = (s.2 as real, t.2 as real);
    let p = worth(rules.extreme_config_penalty);
    let (e1, e2) = (extremes(worth, rules, s), extremes(worth, rules, t));
    if high_variance {
        let (a, b, c) = (
            worth(rules.depth_weight_high_var),
            worth(rules.rounds_weight_high_var),
            worth(rules.lr_penalty_high_var),
        );
        assert((d2 - d1) * a == d2 * a - d1 * a) by (nonlinear_arith);
        assert((r2 - r1) * b == r2 * b - r1 * b) by (nonlinear_arith);
        assert((l2 - l1) * c == l2 * c - l1 * c) by (nonlinear_arith);
    } else {
        let (a, b, c) = (
            worth(rules.depth_weight_low_var),
            worth(rules.lr_weight_low_var),
            worth(rules.rounds_penalty_low_var),
        );
        assert((d2 - d1) * a == d2 * a - d1 * a) by (nonlinear_arith);
        assert((l2 - l1) * b == l2 * b - l1 * b) by (nonlinear_arith);
        assert((r2 - r1) * c == r2 * c - r1 * c) by (nonlinear_arith);
    }
    assert((e2 - e1) * p == e2 * p - e1 * p) by (nonlinear_arith);
    assert(0real * p == 0real && 1real * p == p && 2real * p == p + p) by (nonlinear_arith);
}

/// What is left over and what the linear model contributes make up the target.
pub proof fn law_leftover_makes_up_targets<V: Number>(
    worth: spec_fn(V) -> real,
    targets: Seq<V>,
    preds: Seq<V>,
    shrinkage: V,
    i: int,
)
    requires
        crate::exact::exact(worth),
        targets.len() == preds.len(),
        0 <= i < targets.len(),
    ensures
        leftover(targets, preds, shrinkage).len() == targets.len(),
        worth(leftover(targets, preds, shrinkage)[i]) + worth(shrinkage) * worth(preds[i])
            == worth(targets[i]),
{
}

/// The mean square of what is left over is a mean: for two lists one after the
/// other it is theirs, weighed by their lengths, and for a single target it is
/// the square of what is left of it.
pub proof fn law_leftover_square_is_a_mean<V: Number, F: Functions<V>>(
    worth: spec_fn(V) -> real,
    f: &F,
    a: (Seq<V>, Seq<V>),
    b: (Seq<V>, Seq<V>),
    shrinkage: V,
    target: V,
    pred: V,
)
    requires
        crate::exact::exact(worth),
        crate::exact::counts(f, worth),
        a.0.len() == a.1.len(),
        b.0.len() == b.1.len(),
        a.0.len() > 0,
        b.0.len() > 0,
        a.0.len() + b.0.len() <= usize::MAX,
    ensures
        worth(leftover_square(f, a.0 + b.0, a.1 + b.1, shrinkage)) * (a.0.len() + b.0.len()) as real
            == worth(leftover_square(f, a.0, a.1, shrinkage)) * a.0.len() as real + worth(
            leftover_square(f, b.0, b.1, shrinkage),
        ) * b.0.len() as real,
        worth(leftover_square(f, seq![target], seq![pred], shrinkage)) == (worth(target) - worth(
            shrinkage,
        ) * worth(pred)) * (worth(target) - worth(shrinkage) * worth(pred)),
{
    let (t, p) = (a.0 + b.0, a.1 + b.1);
    let x = squares(leftover(a.0, a.1, shrinkage));
    let y = squares(leftover(b.0, b.1, shrinkage));
    assert(squares(leftover(t, p, shrinkage)) =~= x + y);
    crate::exact::law_totals_add_up(worth, x, y, target);
    let (m, n) = (a.0.len() as real, b.0.len() as real);
    let (u, v) = (worth(crate::number::total(x)), worth(crate::number::total(y)));
    assert((u + v) / (m + n) * (m + n) == u / m * m + v / n * n) by (nonlinear_arith)
        requires
            m > 0real,
            n > 0real,
    ;
    let w = crate::number::minus(target, crate::number::times(shrinkage, pred));
    let square = crate::number::times(w, w);
    assert(squares(leftover(seq![target], seq![pred], shrinkage)) =~= seq![square]);
    crate::exact::law_totals_add_up(worth, x, y, square);
    let q = worth(square);
    assert(q / 1real == q) by (nonlinear_arith);
}

/// A contribution is chosen from the list, and none that suits the model leaves
/// less over. Where the model is strong, and some contribution is large enough,
/// the chosen one is; where it is weak, and some is small enough, the chosen one
/// is.
pub proof fn law_shrinkage_leaves_least<V: Number, F: Functions<V>>(
    f: &F,
    values: Seq<V>,
    rules: LttRules<V>,
    linear_r2: V,
    preds: Seq<V>,
    targets: Seq<V>,
    k: int,
)
    requires
        crate::number::ordered::<V>(),
        crate::number::ranked::<V>(),
        crate::number::mirrored::<V>(),
        crate::number::decided::<V>(),
        values.len() > 1,
        0 <= k < values.len(),
        crate::number::below(
            leftover_square(f, targets, preds, values[k]),
            crate::number::highest(),
        ),
        crate::number::above(linear_r2, rules.strong_linear_r2) ==> crate::number::at_least(
            values[k],
            rules.high_shrinkage_min,
        ),
        !crate::number::above(linear_r2, rules.strong_linear_r2) && crate::number::below(
            linear_r2,
            rules.weak_linear_r2,
        ) ==> crate::number::at_most(values[k], rules.low_shrinkage_max),
    ensures
        ({
            let best = shrinkage_of(f, values, rules, linear_r2, preds, targets);
            &&& values.contains(best)
            &&& !crate::number::below(
                leftover_square(f, targets, preds, values[k]),
                leftover_square(f, targets, preds, best),
            )
            &&& crate::number::above(linear_r2, rules.strong_linear_r2)
                ==> crate::number::at_least(best, rules.high_shrinkage_min)
            &&& !crate::number::above(linear_r2, rules.strong_linear_r2) && crate::number::below(
                linear_r2,
                rules.weak_linear_r2,
            ) ==> crate::number::at_most(best, rules.low_shrinkage_max)
        }),
{
    let candidates = shrinkage_candidates(values, rules, linear_r2);
    law_least_leftover_is_first_of_least(f, candidates, targets, preds);
    let large = |s: V| crate::number::at_least(s, rules.high_shrinkage_min);
    let little = |s: V| crate::number::at_most(s, rules.low_shrinkage_max);
    let strong = crate::number::above(linear_r2, rules.strong_linear_r2);
    let weak = !strong && crate::number::below(linear_r2, rules.weak_linear_r2);
    if strong {
        values.lemma_filter_contains(large, k);
        let j = choose|j: int|
            0 <= j < values.filter(large).len() && values.filter(large)[j] == values[k];
        assert(candidates == values.filter(large));
    } else if weak {
        values.lemma_filter_contains(little, k);
        let j = choose|j: int|
            0 <= j < values.filter(little).len() && values.filter(little)[j] == values[k];
        assert(candidates == values.filter(little));
    }
    assert(candidates.contains(values[k]));
    let i = choose|i: int| 0 <= i < candidates.len() && candidates[i] == values[k];
    assert(leftover_square(f, targets, preds, candidates[i]) == leftover_square(
        f,
        targets,
        preds,
        values[k],
    ));
    let b = least_leftover(f, candidates, targets, preds)->0;
    if strong {
        lemma_filter_within(values, large, b);
    } else if weak {
        lemma_filter_within(values, little, b);
    }
}

/// What a filter lets pass is in the list, and meets the condition.
proof fn lemma_filter_within<A>(list: Seq<A>, keep: spec_fn(A) -> bool, i: int)
    requires
        0 <= i < list.filter(keep).len(),
    ensures
        list.contains(list.filter(keep)[i]),
        keep(list.filter(keep)[i]),
    decreases list.len(),
{
    reveal(Seq::filter);
    if list.len() > 0 {
        let fewer = list.drop_last();
        if i < fewer.filter(keep).len() {
            lemma_filter_within(fewer, keep, i);
            let k = choose|k: int| 0 <= k < fewer.len() && fewer[k] == fewer.filter(keep)[i];
            assert(list[k] == list.filter(keep)[i]);
        } else {
            assert(list[list.len() - 1] == list.filter(keep)[i]);
        }
    }
}

/// The data of the training and those held back are the whole data, one after
/// the other, and so many rows are held back as are to be.
pub proof fn law_division_keeps_all_data<V>(
    split: DataSplit<V>,
    features: Seq<V>,
    targets: Seq<V>,
    num_features: nat,
    held: nat,
)
    requires
        divides_data(split, features, targets, num_features, held),
        features.len() == targets.len() * num_features,
        held <= targets.len() <= usize::MAX,
    ensures
        split.train_targets@ + split.val_targets@ == targets,
        split.train_features@ + split.val_features@ == features,
        split.val_targets@.len() == held,
        split.val_features@.len() == held * num_features,
{
    let rows = targets.len() as int;
    lemma_rows_at_span(features, num_features, 0, rows - held, rows);
    lemma_rows_at_span(features, num_features, rows - held, rows, rows);
    let cut = (rows - held) * num_features;
    assert(0 <= cut <= rows * num_features && rows * num_features - cut == held * num_features)
        by (nonlinear_arith)
        requires
            cut == (rows - held) * num_features,
            0 <= held <= rows,
            num_features >= 0,
    ;
    assert(0 * num_features == 0) by (nonlinear_arith);
    assert(split.train_features@ + split.val_features@ =~= features);
    assert(split.train_targets@ + split.val_targets@ =~= targets);
}

proof fn lemma_rows_at_span<V>(
    features: Seq<V>,
    num_features: nat,
    from: int,
    to: int,
    rows: int,
)
    requires
        0 <= from <= to <= rows <= usize::MAX,
        features.len() == rows * num_features,
    ensures
        0 <= from * num_features <= to * num_features <= features.len(),
        rows_at(features, num_features, span(from, to)) == features.subrange(
            from * num_features,
            to * num_features,
        ),
    decreases to - from,
{
    let n = num_features as int;
    assert(0 <= from * n <= to * n <= rows * n) by (nonlinear_arith)
        requires
            0 <= from <= to <= rows,
            n >= 0,
    ;
    let list = span(from, to);
    if from < to {
        lemma_rows_at_span(features, num_features, from, to - 1, rows);
        assert(list.drop_last() =~= span(from, to - 1));
        assert(list.last() == to - 1);
        assert((to - 1) * n + n == to * n) by (nonlinear_arith);
        assert(from * n <= (to - 1) * n) by (nonlinear_arith)
            requires
                from <= to - 1,
                n >= 0,
        ;
        assert(features.subrange(from * n, (to - 1) * n) + features.subrange(
            (to - 1) * n,
            to * n,
        ) =~= features.subrange(from * n, to * n));
    } else {
        assert(list =~= Seq::empty());
        assert(features.subrange(from * n, to * n) =~= Seq::empty());
    }
}

/// The rows held back are the least number that is no less than their share.
pub proof fn law_rows_held_back<V: Number, F: Functions<V>>(
    worth: spec_fn(V) -> real,
    f: &F,
    rows: usize,
    val_ratio: V,
)
    requires
        crate::exact::exact(worth),
        crate::exact::counts(f, worth),
        crate::exact::rounding(f, worth),
        0real <= worth(val_ratio) && worth(val_ratio) <= 1real,
    ensures
        held_back(f, rows, val_ratio) as real >= rows as real * worth(val_ratio),
        (held_back(f, rows, val_ratio) as real) < (rows as real) * worth(val_ratio) + 1real,
        held_back(f, rows, val_ratio) <= rows,
{
    let r = worth(val_ratio);
    let n = rows as real;
    assert(0real <= n * r && n * r <= n) by (nonlinear_arith)
        requires
            0real <= r,
            r <= 1real,
            n >= 0real,
    ;
}

} // verus!
