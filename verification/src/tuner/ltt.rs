//! Tuning a linear model and, behind it, trees that learn what it leaves over.
//!
//! The linear model is tuned first, since the trees are trained on its
//! residuals. It is fitted outside: the functions here say with which settings,
//! and what follows from the results.

use crate::error::{Result, TreeBoostError};
use crate::functions::{show_number, Functions};
use crate::number::{ratio_number, Number};
use crate::text::join2;
use crate::tree::vector_tree::copy_list;
use vstd::prelude::*;

verus! {

/// The settings of the linear model.
#[derive(Debug, Clone, Copy)]
pub struct LinearHyperparams<V> {
    /// The strength of the regularisation.
    pub lambda: V,
    /// How much of the regularisation goes by the absolute values.
    pub l1_ratio: V,
    /// How much the linear model contributes.
    pub shrinkage_factor: V,
    /// How far predictions are drawn towards the mean.
    pub extrapolation_damping: V,
}

/// Kinds of regularisation.
#[derive(Debug, Clone, Copy, PartialEq, Eq, Structural)]
pub enum LinearHyperparamsPreset {
    /// By the squares.
    Ridge,
    /// By the absolute values.
    Lasso,
    /// Half and half.
    ElasticNet,
}

impl<V: Number> LinearHyperparams<V> {
    /// The usual settings, with a share of the linear prediction: ridge
    /// regression, without damping.
    pub fn usual(shrinkage_factor: V) -> (r: Self)
        requires
            crate::number::arithmetic::<V>(),
        ensures
            r == (LinearHyperparams {
                lambda: crate::number::small(1),
                l1_ratio: crate::number::small(0),
                shrinkage_factor,
                extrapolation_damping: crate::number::small(0),
            }),
    {
        LinearHyperparams {
            lambda: V::from(1u8),
            l1_ratio: V::from(0u8),
            shrinkage_factor,
            extrapolation_damping: V::from(0u8),
        }
    }

    /// Takes over a kind of regularisation.
    pub fn with_preset(self, preset: LinearHyperparamsPreset) -> (r: Self)
        requires
            crate::number::arithmetic::<V>(),
        ensures
            r == (LinearHyperparams {
                l1_ratio: match preset {
                    LinearHyperparamsPreset::Ridge => crate::number::small(0),
                    LinearHyperparamsPreset::Lasso => crate::number::small(1),
                    LinearHyperparamsPreset::ElasticNet => crate::number::ratio(1, 2),
                },
                ..self
            }),
    {
        let l1_ratio: V = match preset {
            LinearHyperparamsPreset::Ridge => V::from(0u8),
            LinearHyperparamsPreset::Lasso => V::from(1u8),
            LinearHyperparamsPreset::ElasticNet => ratio_number(1, 2),
        };
        LinearHyperparams { l1_ratio, ..self }
    }
}

/// The settings of the trees.
#[derive(Debug, Clone, Copy)]
pub struct TreeHyperparams<V> {
    /// How deep trees may be.
    pub max_depth: u32,
    /// The share of a tree's values that is added.
    pub learning_rate: V,
    /// How many trees are trained.
    pub num_rounds: u32,
    /// The least sum of hessians of a leaf.
    pub min_child_weight: V,
    /// The share of the samples for each tree.
    pub subsample: V,
    /// The share of the features for each tree.
    pub colsample_bytree: V,
}

/// Kinds of settings of the trees.
#[derive(Debug, Clone, Copy, PartialEq, Eq, Structural)]
pub enum TreeHyperparamsPreset {
    /// Many shallow trees.
    Conservative,
    /// Fewer deep trees.
    Aggressive,
}

impl<V: Number> TreeHyperparams<V> {
    /// The usual settings.
    pub fn usual() -> (r: Self)
        requires
            crate::number::arithmetic::<V>(),
        ensures
            r == (TreeHyperparams {
                max_depth: 6,
                learning_rate: crate::number::ratio::<V>(1, 10),
                num_rounds: 500,
                min_child_weight: crate::number::small(1),
                subsample: crate::number::small(1),
                colsample_bytree: crate::number::small(1),
            }),
    {
        let one: V = V::from(1u8);
        TreeHyperparams {
            max_depth: 6,
            learning_rate: ratio_number(1, 10),
            num_rounds: 500,
            min_child_weight: one,
            subsample: one,
            colsample_bytree: one,
        }
    }

    /// Takes over a kind of settings.
    pub fn with_preset(self, preset: TreeHyperparamsPreset) -> (r: Self)
        requires
            crate::number::arithmetic::<V>(),
        ensures
            r == (match preset {
                TreeHyperparamsPreset::Conservative => TreeHyperparams {
                    max_depth: 4,
                    learning_rate: crate::number::ratio::<V>(5, 100),
                    num_rounds: 1000,
                    min_child_weight: crate::number::small(3),
                    subsample: crate::number::ratio(8, 10),
                    colsample_bytree: crate::number::ratio(8, 10),
                },
                TreeHyperparamsPreset::Aggressive => TreeHyperparams {
                    max_depth: 8,
                    learning_rate: crate::number::ratio(15, 100),
                    num_rounds: 500,
                    min_child_weight: crate::number::small(1),
                    subsample: crate::number::small(1),
                    colsample_bytree: crate::number::small(1),
                },
            }),
    {
        match preset {
            TreeHyperparamsPreset::Conservative => TreeHyperparams {
                max_depth: 4,
                learning_rate: ratio_number(5, 100),
                num_rounds: 1000,
                min_child_weight: V::from(3u8),
                subsample: ratio_number(8, 10),
                colsample_bytree: ratio_number(8, 10),
            },
            TreeHyperparamsPreset::Aggressive => TreeHyperparams {
                max_depth: 8,
                learning_rate: ratio_number(15, 100),
                num_rounds: 500,
                min_child_weight: V::from(1u8),
                subsample: V::from(1u8),
                colsample_bytree: V::from(1u8),
            },
        }
    }
}

/// The settings of both.
#[derive(Debug, Clone, Copy)]
pub struct LttConfig<V> {
    /// Those of the linear model.
    pub linear: LinearHyperparams<V>,
    /// Those of the trees.
    pub tree: TreeHyperparams<V>,
}

/// How long the phases took, in milliseconds.
#[derive(Debug, Clone, Copy, PartialEq, Eq, Structural)]
pub struct PhaseTimes {
    /// Tuning the linear model.
    pub linear_phase: u64,
    /// Tuning the trees.
    pub tree_phase: u64,
    /// Tuning the damping.
    pub joint_phase: u64,
}

impl Default for PhaseTimes {
    fn default() -> (r: Self)
        ensures
            r == (PhaseTimes { linear_phase: 0, tree_phase: 0, joint_phase: 0 }),
    {
        PhaseTimes { linear_phase: 0, tree_phase: 0, joint_phase: 0 }
    }
}

/// A trial of the linear model.
#[derive(Debug, Clone, Copy)]
pub struct LinearTrial<V> {
    /// The strength of the regularisation.
    pub lambda: V,
    /// How much of the regularisation goes by the absolute values.
    pub l1_ratio: V,
    /// The coefficient of determination on the data held back.
    pub r2: V,
    /// The root of the mean squared error on the data held back.
    pub rmse: V,
}

/// A trial of the trees.
#[derive(Debug, Clone, Copy)]
pub struct TreeTrial<V> {
    /// How deep trees may be.
    pub max_depth: u32,
    /// The share of a tree's values that is added.
    pub learning_rate: V,
    /// How many trees are trained.
    pub num_rounds: u32,
    /// An estimate of the error.
    pub residual_rmse: V,
}

/// A trial of the damping.
#[derive(Debug, Clone, Copy)]
pub struct JointTrial<V> {
    /// How far predictions are drawn towards the mean.
    pub extrapolation_damping: V,
    /// The root of the mean squared error on the data held back.
    pub combined_rmse: V,
}

/// The trials of all phases.
#[derive(Debug, Clone)]
pub struct LttTuningHistory<V> {
    /// Those of the linear model.
    pub linear_trials: Vec<LinearTrial<V>>,
    /// Those of the trees.
    pub tree_trials: Vec<TreeTrial<V>>,
    /// Those of the damping.
    pub joint_trials: Vec<JointTrial<V>>,
}

/// What came of tuning.
#[derive(Debug, Clone)]
pub struct LttTuningResult<V> {
    /// The best settings of the linear model.
    pub linear_params: LinearHyperparams<V>,
    /// The best settings of the trees.
    pub tree_params: TreeHyperparams<V>,
    /// The coefficient of determination of the linear model.
    pub linear_r2: V,
    /// The error of the linear model in the end.
    pub final_rmse: V,
    /// How long it took, in milliseconds.
    pub total_time: u64,
    /// How long the phases took.
    pub phase_times: PhaseTimes,
    /// The trials.
    pub history: LttTuningHistory<V>,
}

/// The rules by which settings are chosen.
#[derive(Debug, Clone, Copy)]
pub struct LttRules<V> {
    /// The linear model's contribution, where nothing better is known.
    pub default_shrinkage: V,
    /// From which coefficient of determination on the linear model is strong.
    pub strong_linear_r2: V,
    /// Below which coefficient of determination the linear model is weak.
    pub weak_linear_r2: V,
    /// The least contribution of a strong linear model.
    pub high_shrinkage_min: V,
    /// The greatest contribution of a weak linear model.
    pub low_shrinkage_max: V,
    /// Above which standard deviation residuals vary much.
    pub high_variance_threshold: V,
    /// The weight of the depth, where residuals vary much.
    pub depth_weight_high_var: V,
    /// The weight of the number of trees, where residuals vary much.
    pub rounds_weight_high_var: V,
    /// The weight against the learning rate, where residuals vary much.
    pub lr_penalty_high_var: V,
    /// The weight of the depth, where residuals vary little.
    pub depth_weight_low_var: V,
    /// The weight of the learning rate, where residuals vary little.
    pub lr_weight_low_var: V,
    /// The weight against the number of trees, where residuals vary little.
    pub rounds_penalty_low_var: V,
    /// Above which depth trees are extreme.
    pub max_depth_threshold: u32,
    /// Below which learning rate training is extreme.
    pub min_lr_threshold: V,
    /// What counts against extreme settings.
    pub extreme_config_penalty: V,
}

/// The settings of tuning.
#[derive(Debug, Clone)]
pub struct LttTunerConfig<V> {
    /// The share of the data that is held back.
    pub val_ratio: V,
    /// Strengths of the regularisation to try.
    pub lambda_values: Vec<V>,
    /// Shares of the absolute values in the regularisation to try.
    pub l1_ratio_values: Vec<V>,
    /// Depths to try.
    pub max_depth_values: Vec<u32>,
    /// Learning rates to try.
    pub learning_rate_values: Vec<V>,
    /// Numbers of trees to try.
    pub num_rounds_values: Vec<u32>,
    /// Contributions of the linear model to try.
    pub shrinkage_factor_values: Vec<V>,
    /// Dampings to try.
    pub extrapolation_damping_values: Vec<V>,
    /// Whether the damping is tuned.
    pub enable_joint_refinement: bool,
    /// Where random numbers start.
    pub seed: u64,
}

/// How thoroughly is tuned.
#[derive(Debug, Clone, Copy, PartialEq, Eq, Structural)]
pub enum LttTunerPreset {
    /// A coarse grid, without tuning the damping.
    Quick,
    /// The usual grid.
    Standard,
    /// A dense grid.
    Thorough,
    /// Only the contribution of the linear model.
    ShrinkageOnly,
}

/// Two settings of tuning hold the same values.
pub open spec fn same_settings<V>(a: LttTunerConfig<V>, b: LttTunerConfig<V>) -> bool {
    &&& a.val_ratio == b.val_ratio
    &&& same_grids(a, b)
    &&& a.enable_joint_refinement == b.enable_joint_refinement
    &&& a.seed == b.seed
}

/// Two settings of tuning hold the same values to be tried.
pub open spec fn same_grids<V>(a: LttTunerConfig<V>, b: LttTunerConfig<V>) -> bool {
    &&& a.lambda_values@ == b.lambda_values@
    &&& a.l1_ratio_values@ == b.l1_ratio_values@
    &&& a.max_depth_values@ == b.max_depth_values@
    &&& a.learning_rate_values@ == b.learning_rate_values@
    &&& a.num_rounds_values@ == b.num_rounds_values@
    &&& a.shrinkage_factor_values@ == b.shrinkage_factor_values@
    &&& a.extrapolation_damping_values@ == b.extrapolation_damping_values@
}

/// The grids of the presets.
#[derive(Debug, Clone)]
pub struct LttPresets<V> {
    /// The usual grid.
    pub standard: LttTunerConfig<V>,
    /// The coarse grid.
    pub quick: LttTunerConfig<V>,
    /// The dense grid.
    pub thorough: LttTunerConfig<V>,
    /// The usual settings of the linear model.
    pub linear: LinearHyperparams<V>,
    /// The usual settings of the trees.
    pub tree: TreeHyperparams<V>,
}

/// A list of one entry.
fn only<A>(v: A) -> (r: Vec<A>)
    ensures
        r@ == seq![v],
{
    let mut list: Vec<A> = Vec::new();
    list.push(v);
    assert(list@ =~= seq![v]);
    list
}

impl<V: Number> LttTunerConfig<V> {
    /// What is wrong with the settings, if anything is.
    pub open spec fn complaint<F: Functions<V>>(self, f: &F) -> Option<Seq<char>> {
        if crate::number::at_most(self.val_ratio, crate::number::small(0))
            || crate::number::at_least(self.val_ratio, crate::number::small(1)) {
            Some(
                "val_ratio must be in (0.0, 1.0), got "@ + crate::functions::shown(
                    f,
                    self.val_ratio,
                ),
            )
        } else if self.lambda_values@.len() == 0 {
            Some("lambda_values cannot be empty"@)
        } else if self.l1_ratio_values@.len() == 0 {
            Some("l1_ratio_values cannot be empty"@)
        } else if self.max_depth_values@.len() == 0 {
            Some("max_depth_values cannot be empty"@)
        } else if self.learning_rate_values@.len() == 0 {
            Some("learning_rate_values cannot be empty"@)
        } else if self.num_rounds_values@.len() == 0 {
            Some("num_rounds_values cannot be empty"@)
        } else if self.shrinkage_factor_values@.len() == 0 {
            Some("shrinkage_factor_values cannot be empty"@)
        } else if self.enable_joint_refinement && self.extrapolation_damping_values@.len() == 0 {
            Some(
                "extrapolation_damping_values cannot be empty when joint refinement is enabled"@,
            )
        } else {
            None
        }
    }

    /// The same settings again.
    pub fn copy(&self) -> (r: Self)
        ensures
            same_settings(r, *self),
    {
        LttTunerConfig {
            val_ratio: self.val_ratio,
            lambda_values: copy_list(self.lambda_values.as_slice()),
            l1_ratio_values: copy_list(self.l1_ratio_values.as_slice()),
            max_depth_values: copy_list(self.max_depth_values.as_slice()),
            learning_rate_values: copy_list(self.learning_rate_values.as_slice()),
            num_rounds_values: copy_list(self.num_rounds_values.as_slice()),
            shrinkage_factor_values: copy_list(self.shrinkage_factor_values.as_slice()),
            extrapolation_damping_values: copy_list(self.extrapolation_damping_values.as_slice()),
            enable_joint_refinement: self.enable_joint_refinement,
            seed: self.seed,
        }
    }

    /// The settings of a preset: its grids, with the share held back and the seed
    /// that all presets have in common. Only the usual and the dense grid refine
    /// both models together.
    pub fn with_preset(self, preset: LttTunerPreset, presets: &LttPresets<V>) -> (r: Self)
        ensures
            r.val_ratio == presets.standard.val_ratio,
            r.seed == presets.standard.seed,
            r.enable_joint_refinement == (preset is Standard || preset is Thorough),
            match preset {
                LttTunerPreset::Quick => same_grids(r, presets.quick),
                LttTunerPreset::Standard => same_grids(r, presets.standard),
                LttTunerPreset::Thorough => same_grids(r, presets.thorough),
                LttTunerPreset::ShrinkageOnly => {
                    &&& r.lambda_values@ == seq![presets.linear.lambda]
                    &&& r.l1_ratio_values@ == seq![presets.linear.l1_ratio]
                    &&& r.max_depth_values@ == seq![presets.tree.max_depth]
                    &&& r.learning_rate_values@ == seq![presets.tree.learning_rate]
                    &&& r.num_rounds_values@ == seq![presets.tree.num_rounds]
                    &&& r.shrinkage_factor_values@ == presets.standard.shrinkage_factor_values@
                    &&& r.extrapolation_damping_values@
                        == presets.standard.extrapolation_damping_values@
                },
            },
    {
        let mut config = match preset {
            LttTunerPreset::Quick => presets.quick.copy(),
            LttTunerPreset::Standard => presets.standard.copy(),
            LttTunerPreset::Thorough => presets.thorough.copy(),
            LttTunerPreset::ShrinkageOnly => {
                let mut narrow = presets.standard.copy();
                narrow.lambda_values = only(presets.linear.lambda);
                narrow.l1_ratio_values = only(presets.linear.l1_ratio);
                narrow.max_depth_values = only(presets.tree.max_depth);
                narrow.learning_rate_values = only(presets.tree.learning_rate);
                narrow.num_rounds_values = only(presets.tree.num_rounds);
                narrow
            },
        };
        config.val_ratio = presets.standard.val_ratio;
        config.seed = presets.standard.seed;
        config.enable_joint_refinement = match preset {
            LttTunerPreset::Quick => false,
            LttTunerPreset::Standard => true,
            LttTunerPreset::Thorough => true,
            LttTunerPreset::ShrinkageOnly => false,
        };
        config
    }

    /// Checks the settings.
    pub fn validate<F: Functions<V>>(&self, f: &F) -> (r: Result<()>)
        requires
            crate::number::arithmetic::<V>(),
            crate::functions::computes(f),
        ensures
            match r {
                Ok(_) => self.complaint(f) is None,
                Err(e) => self.complaint(f) is Some && e.is_config(self.complaint(f)->0),
            },
    {
        let zero: V = V::from(0u8);
        let one: V = V::from(1u8);
        if self.val_ratio <= zero || self.val_ratio >= one {
            let shown = show_number(f, self.val_ratio);
            return Err(
                TreeBoostError::Config(
                    join2("val_ratio must be in (0.0, 1.0), got ", shown.as_str()),
                ),
            );
        }
        if self.lambda_values.len() == 0 {
            return Err(TreeBoostError::Config("lambda_values cannot be empty".to_owned()));
        }
        if self.l1_ratio_values.len() == 0 {
            return Err(TreeBoostError::Config("l1_ratio_values cannot be empty".to_owned()));
        }
        if self.max_depth_values.len() == 0 {
            return Err(TreeBoostError::Config("max_depth_values cannot be empty".to_owned()));
        }
        if self.learning_rate_values.len() == 0 {
            return Err(TreeBoostError::Config("learning_rate_values cannot be empty".to_owned()));
        }
        if self.num_rounds_values.len() == 0 {
            return Err(TreeBoostError::Config("num_rounds_values cannot be empty".to_owned()));
        }
        if self.shrinkage_factor_values.len() == 0 {
            return Err(
                TreeBoostError::Config("shrinkage_factor_values cannot be empty".to_owned()),
            );
        }
        if self.enable_joint_refinement && self.extrapolation_damping_values.len() == 0 {
            return Err(
                TreeBoostError::Config(
                    "extrapolation_damping_values cannot be empty when joint refinement is enabled".to_owned(),
                ),
            );
        }
        Ok(())
    }
}

/// Settings are in order exactly if a part of the data is held back but not all,
/// and there is something to try of each kind that is tuned.
pub proof fn law_usable_tuning<V: Number, F: Functions<V>>(
    worth: spec_fn(V) -> real,
    f: &F,
    config: LttTunerConfig<V>,
)
    requires
        crate::exact::exact(worth),
    ensures
        config.complaint(f) is None <==> {
            &&& 0real < worth(config.val_ratio) && worth(config.val_ratio) < 1real
            &&& config.lambda_values@.len() > 0
            &&& config.l1_ratio_values@.len() > 0
            &&& config.max_depth_values@.len() > 0
            &&& config.learning_rate_values@.len() > 0
            &&& config.num_rounds_values@.len() > 0
            &&& config.shrinkage_factor_values@.len() > 0
            &&& config.enable_joint_refinement ==> config.extrapolation_damping_values@.len() > 0
        },
{
}

} // verus!
