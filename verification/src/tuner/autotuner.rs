//! The search for good hyperparameters, round by round.
//!
//! A round generates candidates around the centers of the parameters, which are
//! then evaluated outside; the functions here take the results back and decide
//! how the search goes on.

use crate::error::{Result, TreeBoostError};
use crate::functions::{show_fixed, Functions};
use crate::number::Number;
use crate::text::join2;
use crate::text_map::TextMap;
use crate::tuner::cartesian::generate_cartesian_grid;
use crate::tuner::config::{EvalStrategy, GridStrategy, TunerConfig};
use crate::tuner::evaluation::{EvalMetrics, TaskType};
use crate::tuner::history::{OptimizationMetric, SearchHistory};
use crate::tuner::sampling::{latin_strata, lhs_intervals, sampled_candidates};
use crate::tuner::space::ParameterSpace;
use crate::tuner::trial::TrialResult;
use crate::random::Generator;
use vstd::prelude::*;

verus! {

/// After how many changes of zone without an improvement the search stops.
pub const MAX_ZONE_SWITCH_FAILS: usize = 3;

/// Where models are trained.
#[derive(Debug, Clone, Copy, PartialEq, Eq, Structural)]
pub enum BackendType {
    /// Chosen at run time.
    Auto,
    /// A graphics processor, through WGPU.
    Wgpu,
    /// A graphics processor, through CUDA.
    Cuda,
    /// A graphics processor, through ROCm.
    Rocm,
    /// A graphics processor, through Metal.
    Metal,
    /// A processor.
    Scalar,
    /// A processor with AVX-512.
    Avx512,
    /// A processor with SVE2.
    Sve2,
}

/// Whether the data are encoded once, or for each part of them.
#[derive(Debug, Clone, Copy, PartialEq, Eq, Structural)]
pub enum TuningMode {
    /// Once.
    Optimistic,
    /// For each part.
    Realistic,
}

impl TuningMode {
    /// Whether the data are encoded for each part of them.
    pub fn is_realistic(&self) -> (r: bool)
        ensures
            r == (*self is Realistic),
    {
        matches!(self, TuningMode::Realistic)
    }
}

/// Whether a backend may be a graphics processor, so that only one model can be
/// trained at a time.
pub fn is_gpu_backend(backend: BackendType) -> (r: bool)
    ensures
        r == !(backend is Scalar || backend is Avx512 || backend is Sve2),
{
    match backend {
        BackendType::Auto => true,
        BackendType::Wgpu => true,
        BackendType::Cuda => true,
        BackendType::Rocm => true,
        BackendType::Metal => true,
        BackendType::Scalar => false,
        BackendType::Avx512 => false,
        BackendType::Sve2 => false,
    }
}

/// Whether candidates are evaluated at the same time.
pub fn use_parallel(parallel_trials: bool, backend: BackendType, mode: TuningMode) -> (r: bool)
    ensures
        r == (parallel_trials && (backend is Scalar || backend is Avx512 || backend is Sve2)
            && mode is Optimistic),
{
    parallel_trials && !is_gpu_backend(backend) && !mode.is_realistic()
}

/// Where a search stands.
#[derive(Debug, Clone, Copy, PartialEq, Eq, Structural)]
pub struct SearchState {
    /// The round.
    pub iteration: usize,
    /// How often the search has zoomed in since the last change of zone.
    pub zoom_level: usize,
    /// How many changes of zone in a row have brought no improvement.
    pub zone_switch_fails: usize,
}

/// Why a search stops.
#[derive(Debug, Clone, Copy, PartialEq, Eq, Structural)]
pub enum StopReason {
    /// Too many changes of zone have brought no improvement.
    ZoneSwitchesFailed,
    /// The round has brought no improvement, and the model is balanced.
    NoImprovement,
    /// It was the last round.
    IterationsExhausted,
}

/// How a search goes on.
#[derive(Debug, Clone, Copy, PartialEq, Eq, Structural)]
pub struct Decision {
    /// Whether the centers are moved at random.
    pub switch_zone: bool,
    /// Why the search stops, if it does.
    pub stop: Option<StopReason>,
}

/// How a search goes on after a round that has brought an improvement or not,
/// with a model that is balanced or not: the decision and where the search then
/// stands.
pub open spec fn decided(
    state: SearchState,
    improved: bool,
    balanced: bool,
    max_iterations: int,
) -> (Decision, SearchState) {
    let last = state.iteration + 1 >= max_iterations;
    let onward = |s: SearchState| SearchState { iteration: (state.iteration + 1) as usize, ..s };
    if improved {
        let zoomed = SearchState {
            zoom_level: (state.zoom_level + 1) as usize,
            zone_switch_fails: 0,
            ..state
        };
        if last {
            (
                Decision { switch_zone: false, stop: Some(StopReason::IterationsExhausted) },
                zoomed,
            )
        } else {
            (Decision { switch_zone: false, stop: None }, onward(zoomed))
        }
    } else if !balanced {
        let failed = SearchState {
            zone_switch_fails: (state.zone_switch_fails + 1) as usize,
            ..state
        };
        if failed.zone_switch_fails >= MAX_ZONE_SWITCH_FAILS {
            (Decision { switch_zone: false, stop: Some(StopReason::ZoneSwitchesFailed) }, failed)
        } else if last {
            (
                Decision { switch_zone: true, stop: Some(StopReason::IterationsExhausted) },
                SearchState { zoom_level: 0, ..failed },
            )
        } else {
            (
                Decision { switch_zone: true, stop: None },
                onward(SearchState { zoom_level: 0, ..failed }),
            )
        }
    } else if state.iteration > 0 {
        (Decision { switch_zone: false, stop: Some(StopReason::NoImprovement) }, state)
    } else if last {
        (Decision { switch_zone: false, stop: Some(StopReason::IterationsExhausted) }, state)
    } else {
        (Decision { switch_zone: false, stop: None }, onward(state))
    }
}

impl SearchState {
    /// There is such a state in a search of so many rounds.
    pub open spec fn wf(self, max_iterations: int) -> bool {
        &&& self.iteration < max_iterations
        &&& self.zoom_level <= self.iteration
        &&& self.zone_switch_fails < MAX_ZONE_SWITCH_FAILS
    }

    /// The start of a search.
    pub fn new() -> (r: Self)
        ensures
            r == (SearchState { iteration: 0, zoom_level: 0, zone_switch_fails: 0 }),
    {
        SearchState { iteration: 0, zoom_level: 0, zone_switch_fails: 0 }
    }

    /// Decides how the search goes on. While it does, the round goes up by one
    /// and stays below the limit.
    pub fn advance(&mut self, improved: bool, balanced: bool, max_iterations: usize) -> (r:
        Decision)
        requires
            old(self).wf(max_iterations as int),
        ensures
            (r, *final(self)) == decided(*old(self), improved, balanced, max_iterations as int),
            r.stop is None ==> final(self).wf(max_iterations as int) && final(self).iteration
                == old(self).iteration + 1,
    {
        let mut switch_zone: bool = false;
        if improved {
            self.zoom_level = self.zoom_level + 1;
            self.zone_switch_fails = 0;
        } else if !balanced {
            self.zone_switch_fails = self.zone_switch_fails + 1;
            if self.zone_switch_fails >= MAX_ZONE_SWITCH_FAILS {
                return Decision { switch_zone, stop: Some(StopReason::ZoneSwitchesFailed) };
            }
            self.zoom_level = 0;
            switch_zone = true;
        }
        if !improved && balanced && self.iteration > 0 {
            return Decision { switch_zone, stop: Some(StopReason::NoImprovement) };
        }
        if self.iteration + 1 >= max_iterations {
            return Decision { switch_zone, stop: Some(StopReason::IterationsExhausted) };
        }
        self.iteration = self.iteration + 1;
        Decision { switch_zone, stop: None }
    }
}

/// The rounds of a search, where `outcomes` says of each round whether it has
/// brought an improvement and whether the model is balanced: where the search
/// stands after them, unless it has stopped before.
pub open spec fn runs(max_iterations: int, outcomes: Seq<(bool, bool)>) -> Option<SearchState>
    decreases outcomes.len(),
{
    if outcomes.len() == 0 {
        Some(SearchState { iteration: 0, zoom_level: 0, zone_switch_fails: 0 })
    } else {
        match runs(max_iterations, outcomes.drop_last()) {
            Some(state) => {
                let (decision, next) = decided(
                    state,
                    outcomes.last().0,
                    outcomes.last().1,
                    max_iterations,
                );
                if decision.stop is None {
                    Some(next)
                } else {
                    None
                }
            },
            None => None,
        }
    }
}

/// A search has no more rounds than it may have.
pub proof fn law_search_ends(max_iterations: int, outcomes: Seq<(bool, bool)>)
    requires
        0 < max_iterations <= usize::MAX,
        runs(max_iterations, outcomes) is Some,
    ensures
        outcomes.len() < max_iterations,
        runs(max_iterations, outcomes)->0.iteration == outcomes.len(),
        runs(max_iterations, outcomes)->0.wf(max_iterations),
    decreases outcomes.len(),
{
    if outcomes.len() > 0 {
        law_search_ends(max_iterations, outcomes.drop_last());
    }
}

/// A search does not go on past rounds in a row that have brought no
/// improvement with a model that is not balanced, once there are too many of
/// them.
pub proof fn law_zone_switches_are_limited(
    max_iterations: int,
    outcomes: Seq<(bool, bool)>,
    n: nat,
)
    requires
        0 < max_iterations <= usize::MAX,
        runs(max_iterations, outcomes) is Some,
        n <= outcomes.len(),
        forall|i: int|
            outcomes.len() - n <= i < outcomes.len() ==> #[trigger] outcomes[i] == (false, false),
    ensures
        n < MAX_ZONE_SWITCH_FAILS,
        runs(max_iterations, outcomes)->0.zone_switch_fails >= n,
    decreases n,
{
    law_search_ends(max_iterations, outcomes);
    if n > 0 {
        let before = outcomes.drop_last();
        assert(outcomes[outcomes.len() - 1] == (false, false));
        assert forall|i: int|
            before.len() - (n - 1) <= i < before.len() implies #[trigger] before[i] == (
            false,
            false,
        ) by {
            assert(before[i] == outcomes[i]);
        }
        law_zone_switches_are_limited(max_iterations, before, (n - 1) as nat);
        law_search_ends(max_iterations, before);
    }
}

/// What is drawn at random for the candidates of a round.
pub enum Draws<V> {
    /// Nothing.
    Nothing,
    /// For each parameter of each candidate a number between two limits.
    Between(Vec<Vec<(V, V)>>, Generator),
    /// For each of so many parameters of each of so many candidates a number
    /// between zero and one.
    Units {
        /// How many candidates.
        n_samples: usize,
        /// How many parameters.
        n_params: usize,
        /// The generator.
        generator: Generator,
    },
}

/// A search for good hyperparameters. `W` is the type of the numbers that need
/// more precision.
#[derive(Debug, Clone)]
pub struct AutoTuner<V, W> {
    /// How the search is carried out.
    pub config: TunerConfig<V>,
    /// The trials.
    pub history: SearchHistory<V, W>,
    /// Where the search stands.
    pub state: SearchState,
    /// The number of the next trial.
    pub next_trial_id: usize,
    /// From which F1 score on a model is balanced.
    pub min_f1_score: V,
}

/// A model with that score is balanced; one without a score counts as zero.
pub open spec fn is_balanced<V: Number>(f1_score: Option<V>, min_f1_score: V) -> bool {
    crate::number::at_least(
        match f1_score {
            Some(v) => v,
            None => crate::number::small(0),
        },
        min_f1_score,
    )
}

/// The complaint about settings that are not usable.
pub open spec fn invalid_text(complaint: Seq<char>) -> Seq<char> {
    "Invalid tuner configuration: "@ + complaint
}

impl<V: Number, W: Number> AutoTuner<V, W> {
    /// The search can go on.
    pub open spec fn wf(self) -> bool {
        &&& self.history.wf()
        &&& self.state.wf(self.config.n_iterations as int)
        &&& self.config.space.wf()
        &&& self.config.space.names_differ()
    }

    /// The best trial.
    pub open spec fn best_trial(self) -> Option<TrialResult<V, W>> {
        match crate::tuner::history::best_of(
            self.history.optimization_metric,
            self.history.trials@,
        ) {
            Some(i) => Some(self.history.trials@[i]),
            None => None,
        }
    }

    /// A search with the usual settings.
    pub fn new<F: Functions<V>>(min_f1_score: V, f: &F) -> (r: Self)
        requires
            crate::number::arithmetic::<V>(),
            crate::number::graded::<V>(),
            crate::functions::computes(f),
        ensures
            r.config.usual(),
            crate::tuner::space::is_regression(f, r.config.space),
            r.config.space.all_valid(),
            r.history.trials@.len() == 0,
            r.history.optimization_metric is ValidationLoss,
            r.next_trial_id == 0,
            r.min_f1_score == min_f1_score,
            r.history.wf(),
            r.config.space.wf(),
            r.config.space.names_differ(),
    {
        AutoTuner {
            config: TunerConfig::new(f),
            history: SearchHistory::new(),
            state: SearchState::new(),
            next_trial_id: 0,
            min_f1_score,
        }
    }

    /// Sets the settings, and the measure by which trials are compared; trials
    /// of before are dropped.
    pub fn with_config(self, config: TunerConfig<V>, metric: OptimizationMetric) -> (r: Self)
        ensures
            r.config == config,
            r.history.trials@.len() == 0,
            r.history.optimization_metric == metric,
            r.history.wf(),
            r.state == self.state,
            r.next_trial_id == self.next_trial_id,
            r.min_f1_score == self.min_f1_score,
    {
        AutoTuner { config, history: SearchHistory::with_metric(metric), ..self }
    }

    /// Sets the parameters.
    pub fn with_space(self, space: ParameterSpace<V>) -> (r: Self)
        ensures
            r == (AutoTuner { config: TunerConfig { space, ..self.config }, ..self }),
    {
        let AutoTuner { config, history, state, next_trial_id, min_f1_score } = self;
        AutoTuner { config: config.with_space(space), history, state, next_trial_id, min_f1_score }
    }

    /// Sets the number of rounds.
    pub fn with_iterations(self, n: usize) -> (r: Self)
        ensures
            r == (AutoTuner { config: TunerConfig { n_iterations: n, ..self.config }, ..self }),
    {
        let AutoTuner { config, history, state, next_trial_id, min_f1_score } = self;
        AutoTuner { config: config.with_iterations(n), history, state, next_trial_id, min_f1_score }
    }

    /// Sets how candidates are judged.
    pub fn with_eval_strategy(self, strategy: EvalStrategy<V>) -> (r: Self)
        ensures
            r == (AutoTuner {
                config: TunerConfig { eval_strategy: strategy, ..self.config },
                ..self
            }),
    {
        let AutoTuner { config, history, state, next_trial_id, min_f1_score } = self;
        AutoTuner {
            config: config.with_eval_strategy(strategy),
            history,
            state,
            next_trial_id,
            min_f1_score,
        }
    }

    /// Sets whether candidates are judged side by side.
    pub fn with_parallel(self, enabled: bool) -> (r: Self)
        ensures
            r == (AutoTuner {
                config: TunerConfig { parallel_trials: enabled, ..self.config },
                ..self
            }),
    {
        let AutoTuner { config, history, state, next_trial_id, min_f1_score } = self;
        AutoTuner {
            config: config.with_parallel(enabled),
            history,
            state,
            next_trial_id,
            min_f1_score,
        }
    }

    /// Sets what the random generators start from.
    pub fn with_seed(self, seed: u64) -> (r: Self)
        ensures
            r == (AutoTuner { config: TunerConfig { seed, ..self.config }, ..self }),
    {
        let AutoTuner { config, history, state, next_trial_id, min_f1_score } = self;
        AutoTuner { config: config.with_seed(seed), history, state, next_trial_id, min_f1_score }
    }

    /// Starts the search; settings that are not usable are an error.
    pub fn start<F: Functions<V>>(self, f: &F) -> (r: Result<Self>)
        requires
            crate::number::arithmetic::<V>(),
            crate::functions::computes(f),
        ensures
            match r {
                Ok(tuner) => {
                    &&& self.config.checked(f, Ok(()))
                    &&& tuner == (AutoTuner {
                        state: SearchState { iteration: 0, zoom_level: 0, zone_switch_fails: 0 },
                        ..self
                    })
                    &&& self.history.wf() && self.config.space.wf()
                        && self.config.space.names_differ() ==> tuner.wf()
                },
                Err(e) => exists|text: String| #[trigger]
                    self.config.checked(f, Err(text)) && e.is_config(invalid_text(text@)),
            },
    {
        match self.config.validate(f) {
            Ok(u) => {
                assert(u == ());
                Ok(AutoTuner { state: SearchState::new(), ..self })
            },
            Err(text) => {
                let message = join2("Invalid tuner configuration: ", text.as_str());
                Err(TreeBoostError::Config(message))
            },
        }
    }

    /// How the search is carried out.
    pub fn config(&self) -> (r: &TunerConfig<V>)
        ensures
            *r == self.config,
    {
        &self.config
    }

    /// The trials.
    pub fn history(&self) -> (r: &SearchHistory<V, W>)
        ensures
            *r == self.history,
    {
        &self.history
    }

    /// How much of each parameter's range the round covers.
    pub fn spread<F: Functions<V>>(&self, f: &F) -> (r: V)
        requires
            crate::number::arithmetic::<V>(),
            crate::functions::computes(f),
        ensures
            r == self.config.spread(f, self.state.zoom_level),
    {
        self.config.spread_for_iteration(self.state.zoom_level, f)
    }

    /// What is to be drawn at random for the candidates of a round.
    pub fn plan_draws<F: Functions<V>>(&self, f: &F) -> (r: Draws<V>)
        requires
            crate::number::arithmetic::<V>(),
            crate::functions::computes(f),
        ensures
            self.config.grid_strategy is Cartesian ==> r is Nothing,
            self.config.grid_strategy matches GridStrategy::LatinHypercube { n_samples } ==> r
                is Between && is_latin_plan(
                f,
                self.config.seed,
                self.config.space.params@.len(),
                n_samples,
                r->Between_0@,
                r->Between_1,
            ),
            self.config.grid_strategy matches GridStrategy::Random { n_samples } ==> {
                &&& r matches Draws::Units { n_samples: n, n_params: m, generator }
                &&& n == n_samples
                &&& m == self.config.space.params@.len()
                &&& generator.seed() == self.config.seed
                &&& generator.lengths() == Seq::<nat>::empty()
            },
    {
        match self.config.grid_strategy {
            GridStrategy::Cartesian { .. } => Draws::Nothing,
            GridStrategy::LatinHypercube { n_samples } => {
                let (strata, generator) = latin_strata(
                    self.config.space.len(),
                    n_samples,
                    self.config.seed,
                );
                let limits = lhs_intervals(strata.as_slice(), n_samples, f);
                proof {
                    let ghost seed = self.config.seed;
                    let ghost n_params = self.config.space.params@.len();
                    assert forall|s: int| 0 <= s < limits@.len() implies (#[trigger] limits@[s])@
                        == plan_row(f, seed, n_params, n_samples, s) by {
                        assert(limits@[s]@ =~= plan_row::<V, F>(f, seed, n_params, n_samples, s));
                    }
                    assert forall|p: int| 0 <= p < n_params implies crate::random::is_permutation(
                        #[trigger] crate::tuner::sampling::strata_of(seed, p, n_samples as nat),
                        n_samples as nat,
                    ) by {
                        assert(crate::random::is_permutation(strata@[p]@, n_samples as nat));
                    }
                }
                Draws::Between(limits, generator)
            },
            GridStrategy::Random { n_samples } => Draws::Units {
                n_samples,
                n_params: self.config.space.len(),
                generator: crate::random::seeded(self.config.seed),
            },
        }
    }

    /// The candidates of a round, where `draws` are the numbers drawn for them.
    pub fn generate_grid<F: Functions<V>>(&self, draws: &[Vec<V>], f: &F) -> (r: Vec<TextMap<V>>)
        requires
            crate::number::arithmetic::<V>(),
            crate::number::ordered::<V>(),
            crate::number::ranked::<V>(),
            crate::number::mirrored::<V>(),
            crate::functions::computes(f),
            crate::tuner::grid::counts_are_numbers::<V, F>(f),
            self.config.space.wf(),
            self.config.space.names_differ(),
            match self.config.grid_strategy {
                GridStrategy::Cartesian { points_per_dim } => {
                    let spread = self.config.spread(f, self.state.zoom_level);
                    &&& points_per_dim > 0
                    &&& crate::tuner::cartesian::tries_are_numbers(
                        f,
                        self.config.space,
                        spread,
                        points_per_dim,
                    )
                },
                _ => forall|s: int|
                    0 <= s < draws@.len() ==> (#[trigger] draws@[s])@.len()
                        == self.config.space.params@.len(),
            },
        ensures
            ({
                let spread = self.config.spread(f, self.state.zoom_level);
                match self.config.grid_strategy {
                    GridStrategy::Cartesian { points_per_dim } => exists|lists: Seq<Seq<V>>|
                        {
                            &&& #[trigger] crate::tuner::cartesian::tries_all(
                                f,
                                self.config.space,
                                spread,
                                points_per_dim,
                                lists,
                            )
                            &&& crate::tuner::cartesian::combines(self.config.space, lists, r@)
                        },
                    _ => {
                        &&& r@.len() == draws@.len()
                        &&& forall|s: int|
                            0 <= s < r@.len() ==> (#[trigger] r@[s])@
                                == crate::text_map::entries_of(
                                self.config.space.names(),
                                crate::tuner::sampling::sampled_row(
                                    f,
                                    self.config.space,
                                    spread,
                                    draws@[s]@,
                                ),
                            )
                    },
                }
            }),
    {
        let spread: V = self.spread(f);
        match self.config.grid_strategy {
            GridStrategy::Cartesian { points_per_dim } => generate_cartesian_grid(
                &self.config.space,
                spread,
                points_per_dim,
                f,
            ),
            GridStrategy::LatinHypercube { .. } => sampled_candidates(
                &self.config.space,
                spread,
                draws,
                f,
            ),
            GridStrategy::Random { .. } => sampled_candidates(
                &self.config.space,
                spread,
                draws,
                f,
            ),
        }
    }

    /// Gives out the number of the next trial.
    pub fn next_id(&mut self) -> (r: usize)
        requires
            old(self).next_trial_id < usize::MAX,
        ensures
            r == old(self).next_trial_id,
            *final(self) == (AutoTuner {
                next_trial_id: (old(self).next_trial_id + 1) as usize,
                ..*old(self)
            }),
    {
        let id: usize = self.next_trial_id;
        self.next_trial_id = id + 1;
        id
    }

    /// Adds a trial.
    pub fn record(&mut self, result: TrialResult<V, W>)
        requires
            crate::number::arithmetic::<V>(),
            crate::number::arithmetic::<W>(),
            old(self).wf(),
        ensures
            crate::tuner::history::adds(old(self).history, result, final(self).history),
            final(self).config == old(self).config,
            final(self).state == old(self).state,
            final(self).next_trial_id == old(self).next_trial_id,
            final(self).min_f1_score == old(self).min_f1_score,
            final(self).wf(),
    {
        self.history.add(result);
    }

    /// Ends a round: the centers are set to the values of the best trial, and
    /// it is decided how the search goes on.
    pub fn conclude_round<F: Functions<V>>(&mut self, f: &F) -> (r: Decision)
        requires
            crate::number::arithmetic::<V>(),
            crate::number::arithmetic::<W>(),
            crate::functions::computes(f),
            old(self).wf(),
        ensures
            (r, final(self).state) == decided(
                old(self).state,
                crate::tuner::history::improves(
                    old(self).history.optimization_metric,
                    old(self).history.trials@,
                    old(self).state.iteration,
                ),
                is_balanced(
                    match old(self).best_trial() {
                        Some(t) => t.f1_score,
                        None => None,
                    },
                    old(self).min_f1_score,
                ),
                old(self).config.n_iterations as int,
            ),
            final(self).config.space.params@ == (match old(self).best_trial() {
                Some(t) => Seq::new(
                    old(self).config.space.params@.len(),
                    |i: int|
                        crate::tuner::space::recentered(
                            old(self).config.space.params@[i],
                            t.params@,
                            f,
                        ),
                ),
                None => old(self).config.space.params@,
            }),
            final(self).config == (TunerConfig {
                space: final(self).config.space,
                ..old(self).config
            }),
            final(self).history == old(self).history,
            final(self).next_trial_id == old(self).next_trial_id,
            final(self).min_f1_score == old(self).min_f1_score,
            r.stop is None ==> final(self).wf(),
            final(self).config.space.wf(),
            final(self).config.space.names_differ(),
    {
        let improved: bool = self.history.improved(self.state.iteration);
        let mut f1: V = V::from(0u8);
        if let Some(best) = self.history.best() {
            self.config.space.set_centers(&best.params, f);
            if let Some(v) = best.f1_score {
                f1 = v;
            }
        }
        let balanced: bool = f1 >= self.min_f1_score;
        self.state.advance(improved, balanced, self.config.n_iterations)
    }

    /// The values of the best trial; it is an error if there is none.
    pub fn best_params(&self) -> (r: Result<&TextMap<V>>)
        requires
            self.history.wf(),
        ensures
            match r {
                Ok(params) => self.best_trial() is Some && params@ == self.best_trial()->0.params@,
                Err(e) => self.history.trials@.len() == 0 && e.is_training(
                    "No successful trials"@,
                ),
            },
    {
        match self.history.best() {
            Some(best) => Ok(&best.params),
            None => Err(TreeBoostError::Training("No successful trials".to_owned())),
        }
    }
}

/// The limits of the layers that candidate `s` falls into, as a seed decides it.
pub open spec fn plan_row<V: Number, F: Functions<V>>(
    f: &F,
    seed: u64,
    n_params: nat,
    n_samples: usize,
    s: int,
) -> Seq<(V, V)> {
    Seq::new(
        n_params,
        |p: int|
            crate::tuner::sampling::layer::<V, F>(
                f,
                crate::tuner::sampling::strata_of(seed, p, n_samples as nat)[s],
                n_samples,
            ),
    )
}

/// `limits` are those of the layers that each candidate falls into, as a seed
/// decides it; in every parameter each layer belongs to one candidate. What is
/// drawn within them comes from `generator`, which has gone on from the seed.
pub open spec fn is_latin_plan<V: Number, F: Functions<V>>(
    f: &F,
    seed: u64,
    n_params: nat,
    n_samples: usize,
    limits: Seq<Vec<(V, V)>>,
    generator: Generator,
) -> bool {
    &&& limits.len() == n_samples
    &&& forall|s: int|
        0 <= s < limits.len() ==> (#[trigger] limits[s])@ == plan_row(
            f,
            seed,
            n_params,
            n_samples,
            s,
        )
    &&& forall|p: int|
        0 <= p < n_params ==> crate::random::is_permutation(
            #[trigger] crate::tuner::sampling::strata_of(seed, p, n_samples as nat),
            n_samples as nat,
        )
    &&& generator.seed() == seed
    &&& generator.lengths() == crate::random::repeated(n_samples as nat, n_params)
}

/// Two plans of one seed are the same: the seed decides what a search tries.
pub proof fn law_seed_decides_plan<V: Number, F: Functions<V>>(
    f: &F,
    seed: u64,
    n_params: nat,
    n_samples: usize,
    a: Seq<Vec<(V, V)>>,
    from_a: Generator,
    b: Seq<Vec<(V, V)>>,
    from_b: Generator,
)
    requires
        is_latin_plan(f, seed, n_params, n_samples, a, from_a),
        is_latin_plan(f, seed, n_params, n_samples, b, from_b),
    ensures
        a.len() == b.len(),
        forall|s: int| 0 <= s < a.len() ==> (#[trigger] a[s])@ == (#[trigger] b[s])@,
        from_a.seed() == from_b.seed(),
        from_a.lengths() == from_b.lengths(),
{
}

/// A trial with what was measured of a candidate.
pub fn finish_trial<V: Number, W: Number>(
    trial_id: usize,
    iteration: usize,
    params: TextMap<V>,
    metrics: EvalMetrics<V, W>,
    train_time_ms: u64,
) -> (r: TrialResult<V, W>)
    ensures
        r == (TrialResult {
            trial_id,
            iteration,
            params,
            val_loss: metrics.val_metric,
            train_loss: metrics.train_metric,
            num_trees: metrics.num_trees,
            train_time_ms,
            f1_score: metrics.f1_score,
            roc_auc: metrics.roc_auc,
            rank_ic: metrics.rank_ic,
        }),
{
    TrialResult {
        trial_id,
        iteration,
        params,
        val_loss: metrics.val_metric,
        train_loss: metrics.train_metric,
        num_trees: metrics.num_trees,
        train_time_ms,
        f1_score: metrics.f1_score,
        roc_auc: metrics.roc_auc,
        rank_ic: metrics.rank_ic,
    }
}

/// The settings of a model that the search changes.
#[derive(Debug, Clone, Copy)]
pub struct GBDTConfig<V> {
    /// How deep trees may be.
    pub max_depth: usize,
    /// The share of a tree's values that is added.
    pub learning_rate: V,
    /// The share of the samples for each tree.
    pub subsample: V,
    /// The share of the features for each tree.
    pub colsample: V,
    /// The weight of the regularisation.
    pub lambda: V,
    /// The weight of the entropy.
    pub entropy_weight: V,
    /// How many samples a leaf has at least.
    pub min_samples_leaf: usize,
    /// The least sum of hessians of a leaf.
    pub min_hessian_leaf: V,
    /// The least gain of a split.
    pub min_gain: V,
    /// The share of the samples with the largest gradients that is kept.
    pub goss_top_rate: V,
    /// The share of the other samples that is kept.
    pub goss_other_rate: V,
    /// How many trees are trained.
    pub num_rounds: usize,
    /// After how many rounds without progress the training stops.
    pub early_stopping_rounds: usize,
    /// The share of the data that is held back.
    pub validation_ratio: V,
}

/// The value of a name, or else `base`.
pub open spec fn value_or<V>(params: Map<Seq<char>, V>, name: Seq<char>, base: V) -> V {
    if params.contains_key(name) {
        params[name]
    } else {
        base
    }
}

/// The whole part of the value of a name, or else `base`.
pub open spec fn whole_or<V, F: Functions<V>>(
    f: &F,
    params: Map<Seq<char>, V>,
    name: Seq<char>,
    base: usize,
) -> usize {
    if params.contains_key(name) {
        crate::functions::whole_of(f, params[name])
    } else {
        base
    }
}

/// The value of a name, or else `base`.
fn take_value<V: Number>(params: &TextMap<V>, name: &str, base: V) -> (r: V)
    ensures
        r == value_or(params@, name@, base),
{
    match params.get(name) {
        Some(v) => *v,
        None => base,
    }
}

/// The whole part of the value of a name, or else `base`.
fn take_whole<V: Number, F: Functions<V>>(
    params: &TextMap<V>,
    name: &str,
    base: usize,
    f: &F,
) -> (r: usize)
    requires
        crate::functions::computes(f),
    ensures
        r == whole_or(f, params@, name@, base),
{
    match params.get(name) {
        Some(v) => f.whole(*v),
        None => base,
    }
}

/// The settings of a model for a candidate: those of `base`, with the values of
/// the parameters that are tuned. With early stopping, `validation_ratio` of the
/// data is held back for it, and otherwise `eval_ratio`.
pub fn build_config<V: Number, F: Functions<V>>(
    base: &GBDTConfig<V>,
    params: &TextMap<V>,
    num_rounds: usize,
    early_stopping_rounds: usize,
    validation_ratio: V,
    eval_ratio: V,
    f: &F,
) -> (r: GBDTConfig<V>)
    requires
        crate::functions::computes(f),
    ensures
        r == (GBDTConfig {
            max_depth: whole_or(f, params@, "max_depth"@, base.max_depth),
            learning_rate: value_or(params@, "learning_rate"@, base.learning_rate),
            subsample: value_or(params@, "subsample"@, base.subsample),
            colsample: value_or(params@, "colsample"@, base.colsample),
            lambda: value_or(params@, "lambda"@, base.lambda),
            entropy_weight: value_or(params@, "entropy_weight"@, base.entropy_weight),
            min_samples_leaf: whole_or(f, params@, "min_samples_leaf"@, base.min_samples_leaf),
            min_hessian_leaf: value_or(params@, "min_hessian_leaf"@, base.min_hessian_leaf),
            min_gain: value_or(params@, "min_gain"@, base.min_gain),
            goss_top_rate: value_or(params@, "goss_top_rate"@, base.goss_top_rate),
            goss_other_rate: value_or(params@, "goss_other_rate"@, base.goss_other_rate),
            num_rounds,
            early_stopping_rounds: if early_stopping_rounds > 0 {
                early_stopping_rounds
            } else {
                base.early_stopping_rounds
            },
            validation_ratio: if early_stopping_rounds > 0 {
                validation_ratio
            } else {
                eval_ratio
            },
        }),
{
    let mut config: GBDTConfig<V> = *base;
    config.max_depth = take_whole(params, "max_depth", base.max_depth, f);
    config.learning_rate = take_value(params, "learning_rate", base.learning_rate);
    config.subsample = take_value(params, "subsample", base.subsample);
    config.colsample = take_value(params, "colsample", base.colsample);
    config.lambda = take_value(params, "lambda", base.lambda);
    config.entropy_weight = take_value(params, "entropy_weight", base.entropy_weight);
    config.min_samples_leaf = take_whole(params, "min_samples_leaf", base.min_samples_leaf, f);
    config.min_hessian_leaf = take_value(params, "min_hessian_leaf", base.min_hessian_leaf);
    config.min_gain = take_value(params, "min_gain", base.min_gain);
    config.goss_top_rate = take_value(params, "goss_top_rate", base.goss_top_rate);
    config.goss_other_rate = take_value(params, "goss_other_rate", base.goss_other_rate);
    config.num_rounds = num_rounds;
    if early_stopping_rounds > 0 {
        config.early_stopping_rounds = early_stopping_rounds;
        config.validation_ratio = validation_ratio;
    } else {
        config.validation_ratio = eval_ratio;
    }
    config
}

/// What is reported of a trial: the width of the interval, where the loss is
/// one; the error of a regression; or the scores of a classification.
pub open spec fn trial_text<V: Number, W: Number, F: Functions<V>, G: Functions<W>>(
    f: &F,
    g: &G,
    t: TrialResult<V, W>,
    is_conformal: bool,
    task_type: TaskType,
) -> Seq<char> {
    if is_conformal {
        "q="@ + crate::functions::fixed_text(f, t.val_loss, 5) + " (interval width)"@
    } else if task_type is Regression {
        "MSE="@ + crate::functions::fixed_text(f, t.val_loss, 5) + " RMSE="@
            + crate::functions::fixed_text(f, crate::functions::root_of(f, t.val_loss), 4)
    } else {
        "LogLoss="@ + crate::functions::fixed_text(f, t.val_loss, 5) + (match t.roc_auc {
            Some(v) => " AUC="@ + crate::functions::fixed_text(g, v, 4),
            None => Seq::empty(),
        }) + (match t.f1_score {
            Some(v) => " F1="@ + crate::functions::fixed_text(
                f,
                crate::number::times(v, crate::number::small(100)),
                2,
            ) + "%"@,
            None => Seq::empty(),
        })
    }
}

/// What is reported of a trial.
pub fn format_trial_metrics<V: Number, W: Number, F: Functions<V>, G: Functions<W>>(
    t: &TrialResult<V, W>,
    is_conformal: bool,
    task_type: TaskType,
    f: &F,
    g: &G,
) -> (r: String)
    requires
        crate::number::arithmetic::<V>(),
        crate::functions::computes(f),
        crate::functions::computes(g),
    ensures
        r@ == trial_text(f, g, *t, is_conformal, task_type),
{
    let loss = show_fixed(f, t.val_loss, 5);
    let mut text = String::new();
    if is_conformal {
        text.append("q=");
        text.append(loss.as_str());
        text.append(" (interval width)");
    } else if task_type.is_regression() {
        let root = show_fixed(f, f.root(t.val_loss), 4);
        text.append("MSE=");
        text.append(loss.as_str());
        text.append(" RMSE=");
        text.append(root.as_str());
    } else {
        text.append("LogLoss=");
        text.append(loss.as_str());
        if let Some(v) = t.roc_auc {
            let shown = show_fixed(g, v, 4);
            text.append(" AUC=");
            text.append(shown.as_str());
        }
        if let Some(v) = t.f1_score {
            let hundred: V = V::from(100u8);
            let shown = show_fixed(f, v * hundred, 2);
            text.append(" F1=");
            text.append(shown.as_str());
            text.append("%");
        }
    }
    assert(text@ =~= trial_text(f, g, *t, is_conformal, task_type));
    text
}

/// How a search goes on: an improvement zooms in by one and forgets failures;
/// without one, an unbalanced model moves the search to another zone, from the
/// outside again, until that has failed often enough in a row, and a balanced one
/// ends it, but in the first round. A round is the last only for one of these
/// reasons or when there are no more.
pub proof fn law_search_goes_on(
    state: SearchState,
    improved: bool,
    balanced: bool,
    max_iterations: int,
)
    requires
        state.wf(max_iterations),
        state.iteration < usize::MAX,
        max_iterations <= usize::MAX,
    ensures
        ({
            let (decision, after) = decided(state, improved, balanced, max_iterations);
            let rounds_left = state.iteration + 1 < max_iterations;
            &&& improved ==> {
                &&& after.zoom_level == state.zoom_level + 1
                &&& after.zone_switch_fails == 0
                &&& !decision.switch_zone
                &&& decision.stop is None <==> rounds_left
            }
            &&& !improved && !balanced ==> {
                &&& after.zone_switch_fails == state.zone_switch_fails + 1
                &&& decision.switch_zone <==> after.zone_switch_fails < 3
                &&& decision.switch_zone ==> after.zoom_level == 0
                &&& decision.stop is None <==> decision.switch_zone && rounds_left
                &&& decision.stop == Some(StopReason::ZoneSwitchesFailed) <==> !decision.switch_zone
            }
            &&& !improved && balanced ==> {
                &&& !decision.switch_zone
                &&& after.zoom_level == state.zoom_level
                &&& after.zone_switch_fails == state.zone_switch_fails
                &&& decision.stop is None <==> state.iteration == 0 && rounds_left
                &&& state.iteration > 0 ==> decision.stop == Some(StopReason::NoImprovement)
            }
            &&& decision.stop is None ==> after.iteration == state.iteration + 1
            &&& decision.stop is Some ==> after.iteration == state.iteration
        }),
{
}

/// A model that scores more than a balanced one is balanced too, and one that
/// reaches the score asked for is.
pub proof fn law_balance_follows_scores<V: Number>(
    worth: spec_fn(V) -> real,
    a: Option<V>,
    b: Option<V>,
    min_f1_score: V,
)
    requires
        crate::exact::exact(worth),
    ensures
        is_balanced(Some(min_f1_score), min_f1_score),
        a matches Some(x) ==> (is_balanced(a, min_f1_score) <==> worth(x) >= worth(min_f1_score)),
        a is None ==> (is_balanced(a, min_f1_score) <==> worth(min_f1_score) <= 0real),
        a is Some && b is Some && worth(a->0) <= worth(b->0) && is_balanced(a, min_f1_score)
            ==> is_balanced(b, min_f1_score),
{
}

} // verus!
