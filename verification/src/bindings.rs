//! What callers from Python are told.

use crate::functions::{show_fixed, show_number, Functions};
use crate::text::{decimal_string, join2};
use crate::tree::split::MonotonicConstraint;
use vstd::prelude::*;

verus! {

/// The constraint that a number stands for.
pub open spec fn constraint_of(code: i32) -> Option<MonotonicConstraint> {
    if code == 1 {
        Some(MonotonicConstraint::Increasing)
    } else if code == -1 {
        Some(MonotonicConstraint::Decreasing)
    } else if code == 0 {
        Some(MonotonicConstraint::Unconstrained)
    } else {
        None
    }
}

/// The complaint about a number that stands for no constraint.
pub open spec fn bad_constraint_text() -> Seq<char> {
    "Constraint must be 1 (increasing), -1 (decreasing), or 0 (none)"@
}

/// The constraints that numbers stand for.
pub fn parse_constraints(codes: &[i32]) -> (r: core::result::Result<
    Vec<MonotonicConstraint>,
    String,
>)
    ensures
        match r {
            Ok(list) => {
                &&& list@.len() == codes@.len()
                &&& forall|i: int|
                    0 <= i < codes@.len() ==> constraint_of(#[trigger] codes@[i]) == Some(list@[i])
            },
            Err(e) => {
                &&& e@ == bad_constraint_text()
                &&& exists|i: int|
                    0 <= i < codes@.len() && constraint_of(#[trigger] codes@[i]) is None
            },
        },
{
    let mut list: Vec<MonotonicConstraint> = Vec::new();
    let mut i: usize = 0;
    while i < codes.len()
        invariant
            i <= codes.len(),
            list@.len() == i,
            forall|k: int|
                0 <= k < i ==> constraint_of(#[trigger] codes@[k]) == Some(list@[k]),
        decreases codes.len() - i,
    {
        match MonotonicConstraint::from_code(codes[i]) {
            Some(c) => list.push(c),
            None => {
                assert(constraint_of(codes@[i as int]) is None);
                return Err(
                    "Constraint must be 1 (increasing), -1 (decreasing), or 0 (none)".to_owned(),
                );
            },
        }
        i = i + 1;
    }
    Ok(list)
}

/// The complaint about data with the wrong number of features.
pub open spec fn feature_count_text(expected: nat, got: nat) -> Seq<char> {
    "Expected "@ + crate::text::decimal(expected) + " features, got "@ + crate::text::decimal(got)
}

/// Checks that data have as many features as a model.
pub fn check_feature_count(expected: usize, got: usize) -> (r: core::result::Result<(), String>)
    ensures
        match r {
            Ok(_) => got == expected,
            Err(e) => got != expected && e@ == feature_count_text(expected as nat, got as nat),
        },
{
    if got == expected {
        Ok(())
    } else {
        let a = decimal_string(expected as u64);
        let b = decimal_string(got as u64);
        let mut text = join2("Expected ", a.as_str());
        text.append(" features, got ");
        text.append(b.as_str());
        Err(text)
    }
}

/// Settings as text.
pub fn config_repr<V: Copy, F: Functions<V>>(
    num_rounds: usize,
    learning_rate: V,
    max_depth: usize,
    max_leaves: usize,
    f: &F,
) -> (r: String)
    requires
        crate::functions::computes(f),
    ensures
        r@ == "GBDTConfig(num_rounds="@ + crate::text::decimal(num_rounds as nat)
            + ", learning_rate="@ + crate::functions::shown(f, learning_rate) + ", max_depth="@
            + crate::text::decimal(max_depth as nat) + ", max_leaves="@ + crate::text::decimal(
            max_leaves as nat,
        ) + ")"@,
{
    let rounds = decimal_string(num_rounds as u64);
    let rate = show_number(f, learning_rate);
    let depth = decimal_string(max_depth as u64);
    let leaves = decimal_string(max_leaves as u64);
    let mut text = join2("GBDTConfig(num_rounds=", rounds.as_str());
    text.append(", learning_rate=");
    text.append(rate.as_str());
    text.append(", max_depth=");
    text.append(depth.as_str());
    text.append(", max_leaves=");
    text.append(leaves.as_str());
    text.append(")");
    text
}

/// A model as text.
pub fn model_repr<V: Copy, F: Functions<V>>(
    num_trees: usize,
    num_features: usize,
    base_prediction: V,
    f: &F,
) -> (r: String)
    requires
        crate::functions::computes(f),
    ensures
        r@ == "GBDTModel(num_trees="@ + crate::text::decimal(num_trees as nat)
            + ", num_features="@ + crate::text::decimal(num_features as nat)
            + ", base_prediction="@ + crate::functions::fixed_text(f, base_prediction, 4) + ")"@,
{
    let trees = decimal_string(num_trees as u64);
    let features = decimal_string(num_features as u64);
    let base = show_fixed(f, base_prediction, 4);
    let mut text = join2("GBDTModel(num_trees=", trees.as_str());
    text.append(", num_features=");
    text.append(features.as_str());
    text.append(", base_prediction=");
    text.append(base.as_str());
    text.append(")");
    text
}

} // verus!
