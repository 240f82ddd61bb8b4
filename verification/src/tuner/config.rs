//! How the search is carried out.

use crate::functions::{show_number, Functions};
use crate::number::{ratio_number, Number};
use crate::text::{decimal_string, join2};
use crate::tuner::space::ParameterSpace;
use vstd::arithmetic::power::pow;
use vstd::prelude::*;

verus! {

/// How a candidate is evaluated.
#[derive(Debug, Clone, Copy)]
pub enum EvalStrategy<V> {
    /// On a part of the data that is held back.
    Holdout {
        /// The share of the data that is held back.
        validation_ratio: V,
    },
    /// On each of several parts of the data in turn.
    KFold {
        /// The number of parts.
        k: usize,
    },
}

/// The complaint about a share of the data that cannot be held back.
pub open spec fn bad_ratio_text(shown: Seq<char>) -> Seq<char> {
    "validation_ratio must be in (0, 1), got "@ + shown
}

/// The complaint about too few parts of the data.
pub open spec fn bad_fold_count_text(k: nat) -> Seq<char> {
    "k must be >= 2, got "@ + crate::text::decimal(k)
}

impl<V: Number> EvalStrategy<V> {
    /// What is wrong with the strategy, if anything is.
    pub open spec fn complaint<F: Functions<V>>(self, f: &F) -> Option<Seq<char>> {
        match self {
            EvalStrategy::Holdout { validation_ratio } => if crate::number::at_most(
                validation_ratio,
                crate::number::small(0),
            ) || crate::number::at_least(validation_ratio, crate::number::small(1)) {
                Some(bad_ratio_text(crate::functions::shown(f, validation_ratio)))
            } else {
                None
            },
            EvalStrategy::KFold { k } => if k < 2 {
                Some(bad_fold_count_text(k as nat))
            } else {
                None
            },
        }
    }

    /// A part of the data is held back.
    pub fn holdout(validation_ratio: V) -> (r: Self)
        ensures
            r == (EvalStrategy::Holdout { validation_ratio }),
    {
        EvalStrategy::Holdout { validation_ratio }
    }

    /// The data are divided into `k` parts.
    pub fn kfold(k: usize) -> (r: Self)
        ensures
            r == (EvalStrategy::<V>::KFold { k }),
    {
        EvalStrategy::KFold { k }
    }

    /// The strategy that suits a number of samples: five parts below 1000,
    /// three up to 5000, and above that a fifth is held back.
    pub fn auto(num_samples: usize) -> (r: Self)
        requires
            crate::number::arithmetic::<V>(),
        ensures
            r == (if num_samples < 1000 {
                EvalStrategy::<V>::KFold { k: 5 }
            } else if num_samples <= 5000 {
                EvalStrategy::KFold { k: 3 }
            } else {
                EvalStrategy::Holdout { validation_ratio: crate::number::ratio(2, 10) }
            }),
    {
        if num_samples < 1000 {
            EvalStrategy::KFold { k: 5 }
        } else if num_samples <= 5000 {
            EvalStrategy::KFold { k: 3 }
        } else {
            EvalStrategy::Holdout { validation_ratio: ratio_number(2, 10) }
        }
    }

    /// Checks the strategy.
    pub fn validate<F: Functions<V>>(&self, f: &F) -> (r: core::result::Result<(), String>)
        requires
            crate::number::arithmetic::<V>(),
            crate::functions::computes(f),
        ensures
            match r {
                Ok(_) => self.complaint(f) is None,
                Err(e) => self.complaint(f) == Some(e@),
            },
    {
        match self {
            EvalStrategy::Holdout { validation_ratio } => {
                let zero: V = V::from(0u8);
                let one: V = V::from(1u8);
                if *validation_ratio <= zero || *validation_ratio >= one {
                    let shown = show_number(f, *validation_ratio);
                    return Err(join2("validation_ratio must be in (0, 1), got ", shown.as_str()));
                }
            },
            EvalStrategy::KFold { k } => {
                if *k < 2 {
                    let shown = decimal_string(*k as u64);
                    return Err(join2("k must be >= 2, got ", shown.as_str()));
                }
            },
        }
        Ok(())
    }
}

/// How candidates are found.
#[derive(Debug, Clone, Copy, PartialEq, Eq, Structural)]
pub enum GridStrategy {
    /// Every combination of a few values of each parameter.
    Cartesian {
        /// How many values of each parameter.
        points_per_dim: usize,
    },
    /// Random points, one in each layer of each parameter.
    LatinHypercube {
        /// How many points.
        n_samples: usize,
    },
    /// Random points.
    Random {
        /// How many points.
        n_samples: usize,
    },
}

/// The complaint about too few values of a parameter.
pub open spec fn too_few_points_text(n: nat) -> Seq<char> {
    "points_per_dim must be >= 2, got "@ + crate::text::decimal(n)
}

/// The complaint about too few random points.
pub open spec fn too_few_samples_text(n: nat) -> Seq<char> {
    "n_samples must be >= 1, got "@ + crate::text::decimal(n)
}

impl GridStrategy {
    /// How many candidates there are for so many parameters.
    pub open spec fn candidates(self, num_params: usize) -> int {
        match self {
            GridStrategy::Cartesian { points_per_dim } => pow(
                points_per_dim as int,
                (num_params as u32) as nat,
            ),
            GridStrategy::LatinHypercube { n_samples } => n_samples as int,
            GridStrategy::Random { n_samples } => n_samples as int,
        }
    }

    /// What is wrong with the strategy, if anything is.
    pub open spec fn complaint(self) -> Option<Seq<char>> {
        match self {
            GridStrategy::Cartesian { points_per_dim } => if points_per_dim < 2 {
                Some(too_few_points_text(points_per_dim as nat))
            } else {
                None
            },
            GridStrategy::LatinHypercube { n_samples } => if n_samples < 1 {
                Some(too_few_samples_text(n_samples as nat))
            } else {
                None
            },
            GridStrategy::Random { n_samples } => if n_samples < 1 {
                Some(too_few_samples_text(n_samples as nat))
            } else {
                None
            },
        }
    }

    /// Every combination of so many values of each parameter.
    pub fn cartesian(points_per_dim: usize) -> (r: Self)
        ensures
            r == (GridStrategy::Cartesian { points_per_dim }),
    {
        GridStrategy::Cartesian { points_per_dim }
    }

    /// So many random points, one in each layer of each parameter.
    pub fn lhs(n_samples: usize) -> (r: Self)
        ensures
            r == (GridStrategy::LatinHypercube { n_samples }),
    {
        GridStrategy::LatinHypercube { n_samples }
    }

    /// So many random points.
    pub fn random(n_samples: usize) -> (r: Self)
        ensures
            r == (GridStrategy::Random { n_samples }),
    {
        GridStrategy::Random { n_samples }
    }

    /// How many candidates there are for so many parameters.
    pub fn num_candidates(&self, num_params: usize) -> (r: usize)
        requires
            self.candidates(num_params) <= usize::MAX,
        ensures
            r == self.candidates(num_params),
    {
        match self {
            GridStrategy::Cartesian { points_per_dim } => power(*points_per_dim, num_params as u32),
            GridStrategy::LatinHypercube { n_samples } => *n_samples,
            GridStrategy::Random { n_samples } => *n_samples,
        }
    }

    /// Checks the strategy.
    pub fn validate(&self) -> (r: core::result::Result<(), String>)
        ensures
            match r {
                Ok(_) => self.complaint() is None,
                Err(e) => self.complaint() == Some(e@),
            },
    {
        match self {
            GridStrategy::Cartesian { points_per_dim } => {
                if *points_per_dim < 2 {
                    let shown = decimal_string(*points_per_dim as u64);
                    return Err(join2("points_per_dim must be >= 2, got ", shown.as_str()));
                }
            },
            GridStrategy::LatinHypercube { n_samples } => {
                if *n_samples < 1 {
                    let shown = decimal_string(*n_samples as u64);
                    return Err(join2("n_samples must be >= 1, got ", shown.as_str()));
                }
            },
            GridStrategy::Random { n_samples } => {
                if *n_samples < 1 {
                    let shown = decimal_string(*n_samples as u64);
                    return Err(join2("n_samples must be >= 1, got ", shown.as_str()));
                }
            },
        }
        Ok(())
    }
}

impl Default for GridStrategy {
    fn default() -> (r: Self)
        ensures
            r == (GridStrategy::Cartesian { points_per_dim: 3 }),
    {
        GridStrategy::Cartesian { points_per_dim: 3 }
    }
}

/// `base` to the power of `exponent`.
fn power(base: usize, exponent: u32) -> (r: usize)
    requires
        pow(base as int, exponent as nat) <= usize::MAX,
    ensures
        r == pow(base as int, exponent as nat),
{
    let mut r: usize = 1;
    let mut i: u32 = 0;
    proof {
        vstd::arithmetic::power::lemma_pow0(base as int);
    }
    while i < exponent
        invariant
            pow(base as int, exponent as nat) <= usize::MAX,
            i <= exponent,
            r == pow(base as int, i as nat),
        decreases exponent - i,
    {
        proof {
            reveal(pow);
            assert(pow(base as int, (i + 1) as nat) == base * pow(base as int, i as nat));
            if base > 0 {
                vstd::arithmetic::power::lemma_pow_increases(
                    base as nat,
                    (i + 1) as nat,
                    exponent as nat,
                );
            } else {
                assert(base * r == 0) by (nonlinear_arith)
                    requires
                        base == 0,
                ;
            }
            assert(r * base == base * r) by (nonlinear_arith);
        }
        r = r * base;
        i = i + 1;
    }
    r
}

/// How the search is carried out.
#[derive(Debug, Clone)]
pub struct TunerConfig<V> {
    /// The parameters that are tuned.
    pub space: ParameterSpace<V>,
    /// How many rounds there are.
    pub n_iterations: usize,
    /// The share of each parameter's range that the first round covers.
    pub initial_spread: V,
    /// By how much the share shrinks when the search zooms in.
    pub zoom_factor: V,
    /// How candidates are found.
    pub grid_strategy: GridStrategy,
    /// How a candidate is evaluated.
    pub eval_strategy: EvalStrategy<V>,
    /// Whether candidates may be evaluated at the same time.
    pub parallel_trials: bool,
    /// How many at most; 0 leaves it open.
    pub n_parallel: usize,
    /// After how many rounds without progress the training stops.
    pub early_stopping_rounds: usize,
    /// How many trees are trained for a candidate.
    pub num_rounds: usize,
    /// Where random numbers start.
    pub seed: u64,
    /// Whether progress is reported.
    pub verbose: bool,
}

/// The complaint about a search without rounds.
pub open spec fn no_iterations_text() -> Seq<char> {
    "n_iterations must be > 0"@
}

/// The complaint about a share of the range.
pub open spec fn bad_spread_text(shown: Seq<char>) -> Seq<char> {
    "initial_spread must be in (0, 1], got "@ + shown
}

/// The complaint about a factor.
pub open spec fn bad_zoom_text(shown: Seq<char>) -> Seq<char> {
    "zoom_factor must be in (0, 1), got "@ + shown
}

/// The complaint about models without trees.
pub open spec fn no_rounds_text() -> Seq<char> {
    "num_rounds must be > 0"@
}

impl<V: Number> TunerConfig<V> {
    /// The settings of [`TunerConfig::new`], but for the parameters.
    pub open spec fn usual(self) -> bool {
        &&& self.n_iterations == 3
        &&& self.initial_spread == crate::number::ratio::<V>(1, 2)
        &&& self.zoom_factor == crate::number::ratio::<V>(1, 2)
        &&& self.grid_strategy == (GridStrategy::Cartesian { points_per_dim: 3 })
        &&& self.eval_strategy == (EvalStrategy::Holdout {
            validation_ratio: crate::number::ratio::<V>(2, 10),
        })
        &&& !self.parallel_trials
        &&& self.n_parallel == 0
        &&& self.early_stopping_rounds == 10
        &&& self.num_rounds == 100
        &&& self.seed == 42
        &&& self.verbose
    }

    /// What is wrong with the settings beside the strategies and the
    /// parameters, if anything is.
    pub open spec fn own_complaint<F: Functions<V>>(self, f: &F) -> Option<Seq<char>> {
        if self.n_iterations == 0 {
            Some(no_iterations_text())
        } else if crate::number::at_most(self.initial_spread, crate::number::small(0))
            || crate::number::above(self.initial_spread, crate::number::small(1)) {
            Some(bad_spread_text(crate::functions::shown(f, self.initial_spread)))
        } else if crate::number::at_most(self.zoom_factor, crate::number::small(0))
            || crate::number::at_least(self.zoom_factor, crate::number::small(1)) {
            Some(bad_zoom_text(crate::functions::shown(f, self.zoom_factor)))
        } else if self.num_rounds == 0 {
            Some(no_rounds_text())
        } else {
            None
        }
    }

    /// `r` is what checking the settings gives: the first complaint, in the
    /// order own settings, parameters, strategy for candidates, strategy for
    /// evaluation.
    pub open spec fn checked<F: Functions<V>>(
        self,
        f: &F,
        r: core::result::Result<(), String>,
    ) -> bool {
        match self.own_complaint(f) {
            Some(text) => r is Err && r->Err_0@ == text,
            None => if !self.space.all_valid() {
                &&& r is Err
                &&& exists|i: int| #[trigger]
                    self.space.first_invalid(i) && r->Err_0@
                        == crate::tuner::space::unknown_parameter(self.space.params@[i].name@)
            } else if let Some(text) = self.grid_strategy.complaint() {
                r is Err && r->Err_0@ == text
            } else if let Some(text) = self.eval_strategy.complaint(f) {
                r is Err && r->Err_0@ == text
            } else {
                r is Ok
            },
        }
    }

    /// How much of each parameter's range is covered after zooming in so many
    /// times.
    pub open spec fn spread<F: Functions<V>>(self, f: &F, iteration: usize) -> V {
        crate::number::times(
            self.initial_spread,
            crate::functions::powi_of(f, self.zoom_factor, iteration as i32),
        )
    }

    /// The usual settings for a regression.
    pub fn new<F: Functions<V>>(f: &F) -> (r: Self)
        requires
            crate::number::arithmetic::<V>(),
            crate::number::graded::<V>(),
            crate::functions::computes(f),
        ensures
            r.usual(),
            r.space.wf(),
            r.space.names_differ(),
            r.space.all_valid(),
            crate::tuner::space::is_regression(f, r.space),
    {
        TunerConfig {
            space: ParameterSpace::default_regression(f),
            n_iterations: 3,
            initial_spread: ratio_number(1, 2),
            zoom_factor: ratio_number(1, 2),
            grid_strategy: GridStrategy::Cartesian { points_per_dim: 3 },
            eval_strategy: EvalStrategy::Holdout { validation_ratio: ratio_number(2, 10) },
            parallel_trials: false,
            n_parallel: 0,
            early_stopping_rounds: 10,
            num_rounds: 100,
            seed: 42,
            verbose: true,
        }
    }

    /// Settings for a short search.
    pub fn quick<F: Functions<V>>(f: &F) -> (r: Self)
        requires
            crate::number::arithmetic::<V>(),
            crate::number::graded::<V>(),
            crate::functions::computes(f),
        ensures
            r.n_iterations == 2,
            r.num_rounds == 50,
            r.early_stopping_rounds == 5,
            (TunerConfig {
                n_iterations: 3,
                num_rounds: 100,
                early_stopping_rounds: 10,
                ..r
            }).usual(),
            r.space.wf(),
            r.space.names_differ(),
            r.space.all_valid(),
            crate::tuner::space::is_regression(f, r.space),
    {
        TunerConfig {
            n_iterations: 2,
            num_rounds: 50,
            early_stopping_rounds: 5,
            ..TunerConfig::new(f)
        }
    }

    /// Settings for a long search.
    pub fn thorough<F: Functions<V>>(f: &F) -> (r: Self)
        requires
            crate::number::arithmetic::<V>(),
            crate::number::graded::<V>(),
            crate::functions::computes(f),
        ensures
            r.n_iterations == 5,
            r.num_rounds == 200,
            r.early_stopping_rounds == 20,
            (TunerConfig {
                n_iterations: 3,
                num_rounds: 100,
                early_stopping_rounds: 10,
                ..r
            }).usual(),
            r.space.wf(),
            r.space.names_differ(),
            r.space.all_valid(),
            crate::tuner::space::is_regression(f, r.space),
    {
        TunerConfig {
            n_iterations: 5,
            num_rounds: 200,
            early_stopping_rounds: 20,
            ..TunerConfig::new(f)
        }
    }

    /// Checks the settings.
    pub fn validate<F: Functions<V>>(&self, f: &F) -> (r: core::result::Result<(), String>)
        requires
            crate::number::arithmetic::<V>(),
            crate::functions::computes(f),
        ensures
            self.checked(f, r),
    {
        let zero: V = V::from(0u8);
        let one: V = V::from(1u8);
        if self.n_iterations == 0 {
            return Err("n_iterations must be > 0".to_owned());
        }
        if self.initial_spread <= zero || self.initial_spread > one {
            let shown = show_number(f, self.initial_spread);
            return Err(join2("initial_spread must be in (0, 1], got ", shown.as_str()));
        }
        if self.zoom_factor <= zero || self.zoom_factor >= one {
            let shown = show_number(f, self.zoom_factor);
            return Err(join2("zoom_factor must be in (0, 1), got ", shown.as_str()));
        }
        if self.num_rounds == 0 {
            return Err("num_rounds must be > 0".to_owned());
        }
        let names = self.space.validate();
        if names.is_err() {
            return names;
        }
        let grid = self.grid_strategy.validate();
        if grid.is_err() {
            return grid;
        }
        self.eval_strategy.validate(f)
    }

    /// How much of each parameter's range is covered after zooming in so many
    /// times.
    pub fn spread_for_iteration<F: Functions<V>>(&self, iteration: usize, f: &F) -> (r: V)
        requires
            crate::number::arithmetic::<V>(),
            crate::functions::computes(f),
        ensures
            r == self.spread(f, iteration),
    {
        self.initial_spread * f.powi(self.zoom_factor, iteration as i32)
    }

    /// How many candidates are evaluated at most.
    pub fn estimated_trials(&self) -> (r: usize)
        requires
            self.grid_strategy.candidates(self.space.params.len()) <= usize::MAX,
            self.grid_strategy.candidates(self.space.params.len()) * self.n_iterations
                <= usize::MAX,
        ensures
            r == self.grid_strategy.candidates(self.space.params.len()) * self.n_iterations,
    {
        let candidates_per_iter: usize = self.grid_strategy.num_candidates(self.space.len());
        candidates_per_iter * self.n_iterations
    }

    /// Sets the parameters that are tuned.
    pub fn with_space(self, space: ParameterSpace<V>) -> (r: Self)
        ensures
            r == (TunerConfig { space, ..self }),
    {
        TunerConfig { space, ..self }
    }

    /// Sets how many rounds there are.
    pub fn with_iterations(self, n: usize) -> (r: Self)
        ensures
            r == (TunerConfig { n_iterations: n, ..self }),
    {
        TunerConfig { n_iterations: n, ..self }
    }

    /// Sets the share of each parameter's range that the first round covers.
    pub fn with_initial_spread(self, spread: V) -> (r: Self)
        ensures
            r == (TunerConfig { initial_spread: spread, ..self }),
    {
        TunerConfig { initial_spread: spread, ..self }
    }

    /// Sets by how much the share shrinks when the search zooms in.
    pub fn with_zoom_factor(self, factor: V) -> (r: Self)
        ensures
            r == (TunerConfig { zoom_factor: factor, ..self }),
    {
        TunerConfig { zoom_factor: factor, ..self }
    }

    /// Sets how candidates are found.
    pub fn with_grid_strategy(self, strategy: GridStrategy) -> (r: Self)
        ensures
            r == (TunerConfig { grid_strategy: strategy, ..self }),
    {
        TunerConfig { grid_strategy: strategy, ..self }
    }

    /// Sets how a candidate is evaluated.
    pub fn with_eval_strategy(self, strategy: EvalStrategy<V>) -> (r: Self)
        ensures
            r == (TunerConfig { eval_strategy: strategy, ..self }),
    {
        TunerConfig { eval_strategy: strategy, ..self }
    }

    /// Sets whether candidates may be evaluated at the same time.
    pub fn with_parallel(self, enabled: bool) -> (r: Self)
        ensures
            r == (TunerConfig { parallel_trials: enabled, ..self }),
    {
        TunerConfig { parallel_trials: enabled, ..self }
    }

    /// Sets how many candidates may be evaluated at the same time.
    pub fn with_n_parallel(self, n: usize) -> (r: Self)
        ensures
            r == (TunerConfig { n_parallel: n, ..self }),
    {
        TunerConfig { n_parallel: n, ..self }
    }

    /// Sets after how many rounds without progress the training stops.
    pub fn with_early_stopping(self, rounds: usize) -> (r: Self)
        ensures
            r == (TunerConfig { early_stopping_rounds: rounds, ..self }),
    {
        TunerConfig { early_stopping_rounds: rounds, ..self }
    }

    /// Sets how many trees are trained for a candidate.
    pub fn with_num_rounds(self, rounds: usize) -> (r: Self)
        ensures
            r == (TunerConfig { num_rounds: rounds, ..self }),
    {
        TunerConfig { num_rounds: rounds, ..self }
    }

    /// Sets where random numbers start.
    pub fn with_seed(self, seed: u64) -> (r: Self)
        ensures
            r == (TunerConfig { seed, ..self }),
    {
        TunerConfig { seed, ..self }
    }

    /// Sets whether progress is reported.
    pub fn with_verbose(self, verbose: bool) -> (r: Self)
        ensures
            r == (TunerConfig { verbose, ..self }),
    {
        TunerConfig { verbose, ..self }
    }
}

/// The first round covers the initial share of each range, and each time the
/// search zooms in, the share is multiplied by the factor.
pub proof fn law_spread_shrinks<V: Number, F: Functions<V>>(
    worth: spec_fn(V) -> real,
    config: TunerConfig<V>,
    f: &F,
    iteration: usize,
)
    requires
        crate::exact::exact(worth),
        crate::exact::whole_powers(f, worth),
        iteration < i32::MAX,
    ensures
        worth(config.spread(f, 0)) == worth(config.initial_spread),
        worth(config.spread(f, (iteration + 1) as usize)) == worth(config.spread(f, iteration))
            * worth(config.zoom_factor),
{
    let s = worth(config.initial_spread);
    let z = worth(config.zoom_factor);
    let p = worth(crate::functions::powi_of(f, config.zoom_factor, iteration as i32));
    assert(worth(crate::functions::powi_of(f, config.zoom_factor, (iteration + 1) as i32)) == p
        * z);
    assert(s * (p * z) == (s * p) * z) by (nonlinear_arith);
    assert(s * 1real == s) by (nonlinear_arith);
}

/// A strategy for evaluation is in order exactly if it holds back a part of the
/// data but not all, or has at least two parts.
pub proof fn law_usable_evaluation<V: Number, F: Functions<V>>(
    worth: spec_fn(V) -> real,
    f: &F,
    strategy: EvalStrategy<V>,
)
    requires
        crate::exact::exact(worth),
    ensures
        strategy.complaint(f) is None <==> match strategy {
            EvalStrategy::Holdout { validation_ratio } => 0real < worth(validation_ratio) && worth(
                validation_ratio,
            ) < 1real,
            EvalStrategy::KFold { k } => 1 < k,
        },
{
}

/// Settings are in order exactly if there is something to do, no more than the
/// whole range is searched, and each round searches a smaller part of it.
pub proof fn law_usable_settings<V: Number, F: Functions<V>>(
    worth: spec_fn(V) -> real,
    f: &F,
    config: TunerConfig<V>,
    iteration: usize,
)
    requires
        crate::exact::exact(worth),
        crate::exact::whole_powers(f, worth),
        iteration < i32::MAX,
    ensures
        config.own_complaint(f) is None <==> {
            &&& config.n_iterations > 0
            &&& config.num_rounds > 0
            &&& 0real < worth(config.initial_spread) && worth(config.initial_spread) <= 1real
            &&& 0real < worth(config.zoom_factor) && worth(config.zoom_factor) < 1real
        },
        config.own_complaint(f) is None ==> 0real < worth(
            config.spread(f, (iteration + 1) as usize),
        ) && worth(config.spread(f, (iteration + 1) as usize)) < worth(config.spread(f, iteration))
            && worth(config.spread(f, iteration)) <= 1real,
    decreases iteration,
{
    if config.own_complaint(f) is None {
        law_spread_shrinks(worth, config, f, iteration);
        if iteration > 0 {
            law_usable_settings(worth, f, config, (iteration - 1) as usize);
        }
        let (s, z) = (worth(config.spread(f, iteration)), worth(config.zoom_factor));
        let rest = 1real - z;
        assert(s > 0real);
        assert(s * z > 0real) by (nonlinear_arith)
            requires
                s > 0real,
                z > 0real,
        ;
        assert(s * rest > 0real) by (nonlinear_arith)
            requires
                s > 0real,
                rest > 0real,
        ;
        assert(s * z + s * rest == s * (z + rest)) by (nonlinear_arith);
        assert(s * 1real == s) by (nonlinear_arith);
    }
}

/// Each parameter more multiplies the combinations by the number of values; drawn
/// candidates are as many as wanted, however many parameters there are.
pub proof fn law_candidates_multiply(strategy: GridStrategy, num_params: usize)
    requires
        num_params < u32::MAX,
    ensures
        match strategy {
            GridStrategy::Cartesian { points_per_dim } => {
                &&& strategy.candidates(0) == 1
                &&& strategy.candidates((num_params + 1) as usize) == points_per_dim
                    * strategy.candidates(num_params)
            },
            GridStrategy::LatinHypercube { n_samples } => strategy.candidates(num_params)
                == n_samples,
            GridStrategy::Random { n_samples } => strategy.candidates(num_params) == n_samples,
        },
{
    if let GridStrategy::Cartesian { points_per_dim } = strategy {
        vstd::arithmetic::power::lemma_pow0(points_per_dim as int);
        reveal(pow);
    }
}

/// Checking settings succeeds exactly if nothing is wrong with any of them.
pub proof fn law_check_finds_what_is_wrong<V: Number, F: Functions<V>>(
    f: &F,
    config: TunerConfig<V>,
    r: core::result::Result<(), String>,
)
    requires
        config.checked(f, r),
    ensures
        r is Ok <==> config.own_complaint(f) is None && config.space.all_valid()
            && config.grid_strategy.complaint() is None && config.eval_strategy.complaint(f) is None,
{
}

/// A strategy for candidates is in order exactly if it gives candidates, and, where
/// it combines values, more than one per parameter.
pub proof fn law_usable_grid(strategy: GridStrategy)
    ensures
        strategy.complaint() is None <==> strategy.candidates(1) > (if strategy is Cartesian {
            1int
        } else {
            0int
        }),
{
    if let GridStrategy::Cartesian { points_per_dim } = strategy {
        vstd::arithmetic::power::lemma_pow1(points_per_dim as int);
    }
}

} // verus!
