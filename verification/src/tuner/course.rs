//! How the data are divided to judge a candidate, and with which settings its
//! model is then trained.

use crate::number::{ratio_number, Number};
use crate::tuner::autotuner::{GBDTConfig, TuningMode};
use crate::tuner::config::EvalStrategy;
use crate::tuner::evaluation::uses_era_split;
use crate::tuner::history::OptimizationMetric;
use vstd::prelude::*;

verus! {

/// How the data are divided to judge a candidate.
#[derive(Debug, Clone, Copy, PartialEq)]
pub enum Course<V> {
    /// As they have been before.
    Divided,
    /// Into parts, each of which is held back in turn.
    Folds {
        /// The number of parts.
        k: usize,
    },
    /// By eras, of which the last are held back.
    ByEra {
        /// The share that is held back.
        ratio: V,
    },
    /// At random.
    AtRandom {
        /// The share that is held back.
        ratio: V,
    },
    /// Not at all: the data of the training are those of the measures.
    Undivided,
}

/// How the data are divided. Data that have been divided before are not divided
/// again. Data that are encoded for each part are not divided by eras.
pub open spec fn course_of<V: Number>(
    strategy: EvalStrategy<V>,
    metric: OptimizationMetric,
    mode: TuningMode,
    has_eras: bool,
    divided_before: bool,
) -> Course<V> {
    if mode is Optimistic && divided_before {
        Course::Divided
    } else {
        match strategy {
            EvalStrategy::KFold { k } => Course::Folds { k },
            EvalStrategy::Holdout { validation_ratio } => if mode is Optimistic && metric is RankIc
                && has_eras {
                Course::ByEra { ratio: validation_ratio }
            } else {
                Course::AtRandom { ratio: validation_ratio }
            },
        }
    }
}

/// How the data are divided to judge a candidate by its loss.
pub fn choose_course<V: Number>(
    strategy: &EvalStrategy<V>,
    metric: OptimizationMetric,
    mode: TuningMode,
    has_eras: bool,
    divided_before: bool,
) -> (r: Course<V>)
    ensures
        r == course_of(*strategy, metric, mode, has_eras, divided_before),
{
    let realistic: bool = mode.is_realistic();
    if !realistic && divided_before {
        return Course::Divided;
    }
    match *strategy {
        EvalStrategy::KFold { k } => Course::Folds { k },
        EvalStrategy::Holdout { validation_ratio } => {
            if !realistic && uses_era_split(metric, has_eras, divided_before) {
                Course::ByEra { ratio: validation_ratio }
            } else {
                Course::AtRandom { ratio: validation_ratio }
            }
        },
    }
}

/// How the data are divided where a candidate is judged by the width of its
/// intervals. Of the eras, the last fifth is held back.
pub open spec fn interval_course_of<V: Number>(
    folds: usize,
    calibration_ratio: V,
    metric: OptimizationMetric,
    mode: TuningMode,
    has_eras: bool,
    divided_before: bool,
) -> Course<V> {
    if mode is Optimistic && divided_before {
        Course::Divided
    } else if folds != 1 {
        Course::Folds { k: folds }
    } else if mode is Realistic {
        Course::AtRandom { ratio: calibration_ratio }
    } else if metric is RankIc && has_eras {
        Course::ByEra { ratio: crate::number::ratio(2, 10) }
    } else {
        Course::Undivided
    }
}

/// How the data are divided to judge a candidate by the width of its intervals.
pub fn choose_interval_course<V: Number>(
    folds: usize,
    calibration_ratio: V,
    metric: OptimizationMetric,
    mode: TuningMode,
    has_eras: bool,
    divided_before: bool,
) -> (r: Course<V>)
    requires
        crate::number::arithmetic::<V>(),
    ensures
        r == interval_course_of(
            folds,
            calibration_ratio,
            metric,
            mode,
            has_eras,
            divided_before,
        ),
{
    let realistic: bool = mode.is_realistic();
    if !realistic && divided_before {
        Course::Divided
    } else if folds != 1 {
        Course::Folds { k: folds }
    } else if realistic {
        Course::AtRandom { ratio: calibration_ratio }
    } else if uses_era_split(metric, has_eras, divided_before) {
        Course::ByEra { ratio: ratio_number(2, 10) }
    } else {
        Course::Undivided
    }
}

/// Settings with other data held back, and with another number of rounds after
/// which the training stops.
pub open spec fn with_validation<V: Number>(
    config: GBDTConfig<V>,
    validation_ratio: V,
    early_stopping_rounds: usize,
) -> GBDTConfig<V> {
    GBDTConfig { validation_ratio, early_stopping_rounds, ..config }
}

/// The settings with which a model is trained. Where the data held back are
/// known to the training (they have been divided before, or are encoded apart),
/// it holds none back itself; where it divides the data, it holds back what the
/// measures do. Only on data that are encoded apart, and on parts, does it stop
/// early.
pub open spec fn settings_of<V: Number>(
    course: Course<V>,
    mode: TuningMode,
    early_stopping_rounds: usize,
    config: GBDTConfig<V>,
) -> GBDTConfig<V> {
    match course {
        Course::Divided => with_validation(config, crate::number::small(0), 0),
        _ => if mode is Realistic {
            with_validation(config, crate::number::small(0), early_stopping_rounds)
        } else {
            match course {
                Course::ByEra { ratio } => with_validation(config, ratio, 0),
                Course::AtRandom { ratio } => with_validation(config, ratio, 0),
                _ => config,
            }
        },
    }
}

/// The settings with which the model of a candidate is trained, where it is
/// judged by its loss.
pub fn settings_for<V: Number>(
    course: &Course<V>,
    mode: TuningMode,
    early_stopping_rounds: usize,
    config: &GBDTConfig<V>,
) -> (r: GBDTConfig<V>)
    requires
        crate::number::arithmetic::<V>(),
    ensures
        r == settings_of(*course, mode, early_stopping_rounds, *config),
{
    let mut settings: GBDTConfig<V> = *config;
    match *course {
        Course::Divided => {
            settings.validation_ratio = V::from(0u8);
            settings.early_stopping_rounds = 0;
        },
        _ => {
            if mode.is_realistic() {
                settings.validation_ratio = V::from(0u8);
                settings.early_stopping_rounds = early_stopping_rounds;
            } else {
                match *course {
                    Course::ByEra { ratio } => {
                        settings.validation_ratio = ratio;
                        settings.early_stopping_rounds = 0;
                    },
                    Course::AtRandom { ratio } => {
                        settings.validation_ratio = ratio;
                        settings.early_stopping_rounds = 0;
                    },
                    _ => {},
                }
            }
        },
    }
    settings
}

/// The settings with which the model of a candidate is trained, where it is
/// judged by the width of its intervals. On data that have been divided before
/// no more are held back and the training does not stop early; elsewhere the
/// settings stay.
pub fn interval_settings_for<V: Number>(course: &Course<V>, config: &GBDTConfig<V>) -> (r:
    GBDTConfig<V>)
    requires
        crate::number::arithmetic::<V>(),
    ensures
        r == (if *course is Divided {
            with_validation(*config, crate::number::small(0), 0)
        } else {
            *config
        }),
{
    let mut settings: GBDTConfig<V> = *config;
    if matches!(*course, Course::Divided) {
        settings.validation_ratio = V::from(0u8);
        settings.early_stopping_rounds = 0;
    }
    settings
}

/// The share of the data of the training that says how wide the intervals are: a
/// fifth, where the data are encoded for each part.
pub fn calibration_share<V: Number>(mode: TuningMode, calibration_ratio: V) -> (r: V)
    requires
        crate::number::arithmetic::<V>(),
    ensures
        r == (if mode is Realistic {
            crate::number::ratio::<V>(2, 10)
        } else {
            calibration_ratio
        }),
{
    if mode.is_realistic() {
        ratio_number(2, 10)
    } else {
        calibration_ratio
    }
}

/// Data that have been divided before are not divided again: neither to measure,
/// whatever the strategy, nor by the training.
pub proof fn law_divided_data_stay_divided<V: Number>(
    strategy: EvalStrategy<V>,
    metric: OptimizationMetric,
    has_eras: bool,
    early_stopping_rounds: usize,
    folds: usize,
    calibration_ratio: V,
    config: GBDTConfig<V>,
)
    ensures
        course_of(strategy, metric, TuningMode::Optimistic, has_eras, true) is Divided,
        interval_course_of(
            folds,
            calibration_ratio,
            metric,
            TuningMode::Optimistic,
            has_eras,
            true,
        ) is Divided,
        settings_of(
            course_of(strategy, metric, TuningMode::Optimistic, has_eras, true),
            TuningMode::Optimistic,
            early_stopping_rounds,
            config,
        ).validation_ratio == crate::number::small::<V>(0),
{
}

/// On data that the training divides, it holds back the same share as the
/// measures do.
pub proof fn law_training_holds_back_what_is_measured<V: Number>(
    validation_ratio: V,
    metric: OptimizationMetric,
    has_eras: bool,
    early_stopping_rounds: usize,
    config: GBDTConfig<V>,
)
    ensures
        ({
            let course = course_of(
                EvalStrategy::Holdout { validation_ratio },
                metric,
                TuningMode::Optimistic,
                has_eras,
                false,
            );
            let ratio = settings_of(
                course,
                TuningMode::Optimistic,
                early_stopping_rounds,
                config,
            ).validation_ratio;
            course == (Course::ByEra { ratio }) || course == (Course::AtRandom { ratio })
        }),
{
}

/// Data are divided by eras only where they have eras, the rank correlation is
/// judged, and they neither have been divided before nor are encoded for each part.
/// Nothing is divided otherwise than the strategy says.
pub proof fn law_division_follows_strategy<V: Number>(
    strategy: EvalStrategy<V>,
    metric: OptimizationMetric,
    mode: TuningMode,
    has_eras: bool,
    divided_before: bool,
)
    ensures
        ({
            let course = course_of(strategy, metric, mode, has_eras, divided_before);
            &&& course is ByEra <==> metric is RankIc && has_eras && mode is Optimistic
                && !divided_before && strategy is Holdout
            &&& course is Divided <==> divided_before && mode is Optimistic
            &&& course matches Course::Folds { k } ==> strategy == (EvalStrategy::<V>::KFold { k })
            &&& course matches Course::ByEra { ratio } ==> strategy == (EvalStrategy::Holdout {
                validation_ratio: ratio,
            })
            &&& course matches Course::AtRandom { ratio } ==> strategy == (EvalStrategy::Holdout {
                validation_ratio: ratio,
            })
            &&& course !is Undivided
        }),
{
}

/// Intervals are judged on parts unless there is only one; a model is judged on the
/// data of its training only where nothing says how to divide them.
pub proof fn law_intervals_follow_folds<V: Number>(
    folds: usize,
    calibration_ratio: V,
    metric: OptimizationMetric,
    mode: TuningMode,
    has_eras: bool,
    divided_before: bool,
)
    ensures
        ({
            let course = interval_course_of(
                folds,
                calibration_ratio,
                metric,
                mode,
                has_eras,
                divided_before,
            );
            &&& course matches Course::Folds { k } ==> k == folds && k != 1
            &&& folds != 1 ==> course is Folds || course is Divided
            &&& mode is Realistic ==> course !is Divided && course !is ByEra && course !is Undivided
            &&& course is Undivided ==> !divided_before && !(metric is RankIc && has_eras)
        }),
{
}

} // verus!
