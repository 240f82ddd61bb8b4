//! Preprocessors of all kinds under one type, and chains of them.

use crate::error::{Result, TreeBoostError};
use crate::functions::Functions;
use crate::number::Number;
use crate::preprocessing::encoding::{LabelEncoder, Labels, OneHotEncoder};
use crate::preprocessing::frequency::{Frequencies, FrequencyEncoder};
use crate::preprocessing::imputer::{ImputeStrategy, SimpleImputer};
use crate::preprocessing::registry::{construct_preprocessor, Registry};
use crate::preprocessing::scaler::{MinMaxScaler, RobustScaler, Scaler, StandardScaler};
use crate::preprocessing::traits::PreprocessorTrait;
use crate::preprocessing::transforms::YeoJohnsonTransform;
use crate::tree::vector_tree::copy_list;
use vstd::prelude::*;

verus! {

/// A preprocessor; `C` is the type of those that the user of the library
/// defines.
#[derive(Debug)]
pub enum Preprocessor<V, C> {
    /// Scales to mean zero and standard deviation one.
    Standard(StandardScaler<V>),
    /// Scales to a range.
    MinMax(MinMaxScaler<V>),
    /// Scales by median and quartiles.
    Robust(RobustScaler<V>),
    /// Turns a category into the number of its occurrences.
    Frequency(FrequencyEncoder<V>),
    /// Turns a category into a label.
    Label(LabelEncoder),
    /// Turns a category into columns.
    OneHot(OneHotEncoder),
    /// Fills in missing numbers.
    Imputer(SimpleImputer<V>),
    /// Brings skewed columns closer to a normal distribution.
    YeoJohnson(YeoJohnsonTransform<V>),
    /// Several preprocessors, one after the other.
    Pipeline(Box<Vec<Preprocessor<V, C>>>),
    /// A preprocessor that the user of the library defines.
    Custom {
        /// What kind of preprocessor it is.
        type_id: String,
        /// Its state as bytes.
        serialized_state: Vec<u8>,
        /// The preprocessor itself, unless it has still to be made from its
        /// state.
        instance: Option<C>,
    },
}

/// Two preprocessors are of the same kind; chains are of the same length, and
/// those of the user's are stored alike and made alike.
pub open spec fn alike<V, C>(a: Preprocessor<V, C>, b: Preprocessor<V, C>) -> bool
    decreases a,
{
    match a {
        Preprocessor::Standard(_) => b is Standard,
        Preprocessor::MinMax(_) => b is MinMax,
        Preprocessor::Robust(_) => b is Robust,
        Preprocessor::Frequency(_) => b is Frequency,
        Preprocessor::Label(_) => b is Label,
        Preprocessor::OneHot(_) => b is OneHot,
        Preprocessor::Imputer(_) => b is Imputer,
        Preprocessor::YeoJohnson(_) => b is YeoJohnson,
        Preprocessor::Pipeline(steps) => {
            &&& b matches Preprocessor::Pipeline(copies)
            &&& copies@.len() == steps@.len()
            &&& forall|i: int| 0 <= i < steps@.len() ==> alike(#[trigger] steps@[i], copies@[i])
        },
        Preprocessor::Custom { type_id, serialized_state, instance } => {
            &&& b matches Preprocessor::Custom {
                type_id: id,
                serialized_state: state,
                instance: made,
            }
            &&& id@ == type_id@
            &&& state@ == serialized_state@
            &&& made is Some <==> instance is Some
        },
    }
}

impl<V: Clone, C: Clone> Clone for Preprocessor<V, C> {
    fn clone(&self) -> (r: Self)
        ensures
            alike(*self, r),
        decreases *self,
    {
        match self {
            Preprocessor::Standard(s) => Preprocessor::Standard(s.clone()),
            Preprocessor::MinMax(s) => Preprocessor::MinMax(s.clone()),
            Preprocessor::Robust(s) => Preprocessor::Robust(s.clone()),
            Preprocessor::Frequency(e) => Preprocessor::Frequency(e.clone()),
            Preprocessor::Label(e) => Preprocessor::Label(e.clone()),
            Preprocessor::OneHot(e) => Preprocessor::OneHot(e.clone()),
            Preprocessor::Imputer(i) => Preprocessor::Imputer(i.clone()),
            Preprocessor::YeoJohnson(t) => Preprocessor::YeoJohnson(t.clone()),
            Preprocessor::Pipeline(steps) => {
                let ghost list = steps@;
                let mut copies: Vec<Preprocessor<V, C>> = Vec::new();
                let mut i: usize = 0;
                while i < steps.len()
                    invariant
                        *self matches Preprocessor::Pipeline(b) && b@ == steps@,
                        list == steps@,
                        i <= steps.len(),
                        copies@.len() == i,
                        forall|j: int| 0 <= j < i ==> alike(#[trigger] list[j], copies@[j]),
                    decreases steps.len() - i,
                {
                    copies.push(steps[i].clone());
                    i = i + 1;
                }
                Preprocessor::Pipeline(Box::new(copies))
            },
            Preprocessor::Custom { type_id, serialized_state, instance } => Preprocessor::Custom {
                type_id: type_id.clone(),
                serialized_state: copy_list(serialized_state.as_slice()),
                instance: match instance {
                    Some(made) => Some(made.clone()),
                    None => None,
                },
            },
        }
    }
}

/// The complaint about a preprocessor that has still to be made from its state.
pub open spec fn not_initialized_text() -> Seq<char> {
    "Custom preprocessor not initialized. Call ensure_initialized() first."@
}

/// The error that complains about a preprocessor that has still to be made from
/// its state.
fn not_initialized() -> (r: TreeBoostError)
    ensures
        r.is_config(not_initialized_text()),
{
    TreeBoostError::Config(
        "Custom preprocessor not initialized. Call ensure_initialized() first.".to_owned(),
    )
}

/// What the scalers in a preprocessor have learnt fits together, and the ranges
/// that they scale to are in order.
pub open spec fn usable<V: Number, C>(p: Preprocessor<V, C>) -> bool
    decreases p,
{
    match p {
        Preprocessor::Standard(s) => s.wf(),
        Preprocessor::MinMax(s) => s.wf() && crate::number::at_most(
            s.feature_range.0,
            s.feature_range.1,
        ),
        Preprocessor::Robust(s) => s.wf(),
        Preprocessor::Pipeline(steps) => forall|i: int|
            0 <= i < steps@.len() ==> usable(#[trigger] steps@[i]),
        _ => true,
    }
}

/// Always true. It stands in quantifiers over the tables between the
/// preprocessors of a chain, as their trigger: `mid` is what the first `k`
/// preprocessors make of a table.
pub open spec fn stage<V>(k: int, mid: Seq<V>) -> bool {
    true
}

/// `r` may be the answer of a preprocessor of the user's that is handed a table
/// to transform.
pub open spec fn answers<V: Number, C: PreprocessorTrait<V>>(
    made: C,
    num_features: nat,
    before: Seq<V>,
    r: Result<()>,
) -> bool {
    exists|m: &mut [V]| #[trigger]
        call_ensures(
            <C as PreprocessorTrait<V>>::transform_numerical,
            (&made, m, num_features as usize),
            r,
        ) && m@ == before
}

/// What comes of transforming a table of numbers: it becomes `after`, unless
/// there is an error. What a preprocessor of the user's makes of the table is
/// up to it; that it is asked, with which table, and that its answer is the
/// result, is stated.
pub open spec fn transforms<V: Number, C: PreprocessorTrait<V>, F: Functions<V>>(
    p: Preprocessor<V, C>,
    f: &F,
    num_features: nat,
    before: Seq<V>,
    after: Seq<V>,
    r: Result<()>,
) -> bool
    decreases p,
{
    match p {
        Preprocessor::Standard(s) => s.scales(num_features, before, after, r),
        Preprocessor::MinMax(s) => s.scales(num_features, before, after, r),
        Preprocessor::Robust(s) => s.scales(num_features, before, after, r),
        Preprocessor::Imputer(i) => i.imputes(num_features, before, after, r),
        Preprocessor::YeoJohnson(t) => t.powers(f, num_features, before, after, false, r),
        Preprocessor::Pipeline(steps) => match r {
            Ok(_) => passes(steps@, f, num_features, before, after),
            Err(_) => exists|k: int, mid: Seq<V>|
                {
                    &&& #[trigger] stage(k, mid)
                    &&& 0 <= k < steps@.len()
                    &&& passes(steps@.take(k), f, num_features, before, mid)
                    &&& transforms(steps@[k], f, num_features, mid, after, r)
                },
        },
        Preprocessor::Custom { instance, .. } => match instance {
            Some(made) => answers(made, num_features, before, r),
            None => {
                &&& r is Err
                &&& r->Err_0.is_config(not_initialized_text())
                &&& after == before
            },
        },
        _ => {
            &&& r is Err
            &&& r->Err_0.is_config(
                "transform_numerical not supported for categorical encoders"@,
            )
            &&& after == before
        },
    }
}

/// What member `k` of a chain answers, where `n` members are come to and the
/// answer of the chain is `r`: the last of them decides.
pub open spec fn answer_of(k: int, n: int, r: Result<()>) -> Result<()> {
    if k < n - 1 {
        Ok(())
    } else {
        r
    }
}

/// A table of numbers goes through several preprocessors without an error.
pub open spec fn passes<V: Number, C: PreprocessorTrait<V>, F: Functions<V>>(
    steps: Seq<Preprocessor<V, C>>,
    f: &F,
    num_features: nat,
    before: Seq<V>,
    after: Seq<V>,
) -> bool
    decreases steps,
{
    if steps.len() == 0 {
        after == before
    } else {
        exists|mid: Seq<V>|
            {
                &&& #[trigger] stage(steps.len() - 1, mid)
                &&& passes(steps.drop_last(), f, num_features, before, mid)
                &&& transforms(steps.last(), f, num_features, mid, after, Ok(()))
            }
    }
}

/// A table of numbers can be handed to a preprocessor: what it comes to divides
/// by the number of columns nowhere where that is zero, and the scalers that it
/// comes to can scale it.
pub open spec fn can_transform<V: Number, C: PreprocessorTrait<V>, F: Functions<V>>(
    p: Preprocessor<V, C>,
    f: &F,
    num_features: nat,
    before: Seq<V>,
) -> bool
    decreases p,
{
    match p {
        Preprocessor::Standard(s) => s.scalable(before.len(), num_features),
        Preprocessor::MinMax(s) => s.scalable(before.len(), num_features),
        Preprocessor::Robust(s) => s.scalable(before.len(), num_features),
        Preprocessor::Imputer(i) => num_features > 0 || i.transform_error(num_features) is Some,
        Preprocessor::YeoJohnson(t) => num_features > 0 || t.transform_error(num_features) is Some,
        Preprocessor::Pipeline(steps) => forall|k: int, mid: Seq<V>|
            0 <= k < steps@.len() && #[trigger] passes(
                steps@.take(k),
                f,
                num_features,
                before,
                mid,
            ) ==> can_transform(steps@[k], f, num_features, mid),
        _ => true,
    }
}

/// A chain of preprocessors that are usable can be handed any table that has
/// columns.
pub proof fn law_usable_can_transform<V: Number, C: PreprocessorTrait<V>, F: Functions<V>>(
    p: Preprocessor<V, C>,
    f: &F,
    num_features: nat,
    before: Seq<V>,
)
    requires
        usable(p),
        num_features > 0,
    ensures
        can_transform(p, f, num_features, before),
    decreases p,
{
    if let Preprocessor::Pipeline(steps) = p {
        assert forall|k: int, mid: Seq<V>|
            0 <= k < steps@.len() && #[trigger] passes(
                steps@.take(k),
                f,
                num_features,
                before,
                mid,
            ) implies can_transform(steps@[k], f, num_features, mid) by {
            assert(usable(steps@[k]));
            law_usable_can_transform(steps@[k], f, num_features, mid);
        }
    }
}

/// What comes of a preprocessor of the user's that is handed a table to learn
/// from, and of the state that is stored of it.
pub open spec fn custom_fits<V: Number, C: PreprocessorTrait<V>>(
    before: Option<C>,
    before_state: Vec<u8>,
    after: Option<C>,
    state: Vec<u8>,
    num_features: nat,
    data: Seq<V>,
    r: Result<()>,
) -> bool {
    match before {
        Some(made) => after is Some && exists|m: &mut C, table: &[V], fitted: Result<()>|
            {
                &&& #[trigger] call_ensures(
                    <C as PreprocessorTrait<V>>::fit_numerical,
                    (m, table, num_features as usize),
                    fitted,
                )
                &&& *m == made
                &&& table@ == data
                &&& takes_down::<V, C>(after->0, fitted, before_state, state, r)
            },
        None => {
            &&& after is None
            &&& state == before_state
            &&& r is Err
            &&& r->Err_0.is_config(not_initialized_text())
        },
    }
}

/// What comes of a preprocessor of the user's that is handed categories to learn
/// from, and of the state that is stored of it.
pub open spec fn custom_fits_categories<V: Number, C: PreprocessorTrait<V>>(
    before: Option<C>,
    before_state: Vec<u8>,
    after: Option<C>,
    state: Vec<u8>,
    categories: Seq<&str>,
    r: Result<()>,
) -> bool {
    match before {
        Some(made) => after is Some && exists|m: &mut C, list: &[&str], fitted: Result<()>|
            {
                &&& #[trigger] call_ensures(
                    <C as PreprocessorTrait<V>>::fit_categorical,
                    (m, list),
                    fitted,
                )
                &&& *m == made
                &&& list@ == categories
                &&& takes_down::<V, C>(after->0, fitted, before_state, state, r)
            },
        None => {
            &&& after is None
            &&& state == before_state
            &&& r is Err
            &&& r->Err_0.is_config(not_initialized_text())
        },
    }
}

/// What becomes of the stored state of a preprocessor of the user's that has
/// learnt with the result `fitted`: where that is an error, or the state cannot
/// be given, it stays as it is, and the error is the result.
pub open spec fn takes_down<V: Number, C: PreprocessorTrait<V>>(
    instance: C,
    fitted: Result<()>,
    before_state: Vec<u8>,
    state: Vec<u8>,
    r: Result<()>,
) -> bool {
    match fitted {
        Err(_) => r == fitted && state == before_state,
        Ok(_) => exists|given: Result<Vec<u8>>|
            {
                &&& #[trigger] call_ensures(
                    <C as PreprocessorTrait<V>>::serialize_state,
                    (&instance,),
                    given,
                )
                &&& match given {
                    Ok(bytes) => r is Ok && state == bytes,
                    Err(e) => r == Err::<(), TreeBoostError>(e) && state == before_state,
                }
            },
    }
}

/// What comes of learning from a table of numbers: the preprocessor becomes
/// `after`.
pub open spec fn fits<V: Number, C: PreprocessorTrait<V>, F: Functions<V>>(
    before: Preprocessor<V, C>,
    after: Preprocessor<V, C>,
    f: &F,
    num_features: nat,
    data: Seq<V>,
    r: Result<()>,
) -> bool
    decreases before, 2nat,
{
    match before {
        Preprocessor::Standard(a) => after matches Preprocessor::Standard(b) && a.fits(
            &b,
            f,
            data,
            num_features,
            r,
        ),
        Preprocessor::MinMax(a) => after matches Preprocessor::MinMax(b) && a.fits(
            &b,
            f,
            data,
            num_features,
            r,
        ),
        Preprocessor::Robust(a) => after matches Preprocessor::Robust(b) && a.fits(
            &b,
            f,
            data,
            num_features,
            r,
        ),
        Preprocessor::Imputer(a) => after matches Preprocessor::Imputer(b) && a.fits(
            &b,
            f,
            data,
            num_features,
            r,
        ),
        Preprocessor::YeoJohnson(a) => after matches Preprocessor::YeoJohnson(b) && a.fits(
            &b,
            f,
            data,
            num_features,
            r,
        ),
        Preprocessor::Pipeline(a) => after matches Preprocessor::Pipeline(b) && steps_fit(
            a@,
            b@,
            f,
            num_features,
            data,
            r,
        ),
        Preprocessor::Custom { type_id, serialized_state, instance } => {
            &&& after matches Preprocessor::Custom {
                type_id: id,
                serialized_state: state,
                instance: made,
            }
            &&& id == type_id
            &&& custom_fits::<V, C>(
                instance,
                serialized_state,
                made,
                state,
                num_features,
                data,
                r,
            )
        },
        _ => {
            &&& r is Err
            &&& r->Err_0.is_config("fit_numerical not supported for categorical encoders"@)
            &&& after == before
        },
    }
}

/// What comes of several preprocessors that learn from a table of numbers, each
/// from what those before make of it: all go on to `after`, or one of them
/// fails, and those behind it stay as they were.
pub open spec fn steps_fit<V: Number, C: PreprocessorTrait<V>, F: Functions<V>>(
    before: Seq<Preprocessor<V, C>>,
    after: Seq<Preprocessor<V, C>>,
    f: &F,
    num_features: nat,
    data: Seq<V>,
    r: Result<()>,
) -> bool
    decreases before, 1nat,
{
    &&& after.len() == before.len()
    &&& match r {
        Ok(_) => exists|out: Seq<V>| #[trigger]
            stage(before.len() as int, out) && fits_all(
                before,
                after,
                f,
                num_features,
                data,
                out,
            ),
        Err(_) => exists|k: int, mid: Seq<V>|
            {
                &&& #[trigger] stage(k, mid)
                &&& 0 <= k < before.len()
                &&& fits_all(before.take(k), after.take(k), f, num_features, data, mid)
                &&& forall|j: int| k < j < before.len() ==> #[trigger] after[j] == before[j]
                &&& fits(before[k], after[k], f, num_features, mid, r) || (fits(
                    before[k],
                    after[k],
                    f,
                    num_features,
                    mid,
                    Ok(()),
                ) && exists|out: Seq<V>| #[trigger]
                    stage(k + 1, out) && transforms(after[k], f, num_features, mid, out, r))
            },
    }
}

/// Several preprocessors learn from a table of numbers without an error, each
/// from what those before make of it.
pub open spec fn fits_all<V: Number, C: PreprocessorTrait<V>, F: Functions<V>>(
    before: Seq<Preprocessor<V, C>>,
    after: Seq<Preprocessor<V, C>>,
    f: &F,
    num_features: nat,
    data: Seq<V>,
    out: Seq<V>,
) -> bool
    decreases before, 0nat,
{
    if before.len() == 0 {
        out == data
    } else {
        exists|mid: Seq<V>|
            {
                &&& #[trigger] stage(before.len() - 1, mid)
                &&& fits_all(
                    before.drop_last(),
                    after.drop_last(),
                    f,
                    num_features,
                    data,
                    mid,
                )
                &&& fits(before.last(), after.last(), f, num_features, mid, Ok(()))
                &&& transforms(after.last(), f, num_features, mid, out, Ok(()))
            }
    }
}

/// A preprocessor can learn from a table of numbers: what it comes to divides by
/// the number of columns nowhere where that is zero, and what has learnt in a
/// chain can transform the table for the next.
pub open spec fn can_fit<V: Number, C: PreprocessorTrait<V>, F: Functions<V>>(
    p: Preprocessor<V, C>,
    f: &F,
    num_features: nat,
    data: Seq<V>,
) -> bool
    decreases p, 1nat,
{
    match p {
        Preprocessor::Imputer(_) => num_features > 0 || data.len() == 0,
        Preprocessor::YeoJohnson(_) => num_features > 0 || data.len() == 0,
        Preprocessor::Pipeline(steps) => can_fit_steps(steps@, f, num_features, data),
        _ => true,
    }
}

/// Several preprocessors can learn from a table of numbers, each from what those
/// before make of it.
pub open spec fn can_fit_steps<V: Number, C: PreprocessorTrait<V>, F: Functions<V>>(
    steps: Seq<Preprocessor<V, C>>,
    f: &F,
    num_features: nat,
    data: Seq<V>,
) -> bool
    decreases steps, 0nat,
{
    forall|k: int, done: Seq<Preprocessor<V, C>>, mid: Seq<V>|
        0 <= k < steps.len() && done.len() == k && #[trigger] fits_all(
            steps.take(k),
            done,
            f,
            num_features,
            data,
            mid,
        ) ==> {
            &&& can_fit(steps[k], f, num_features, mid)
            &&& forall|after: Preprocessor<V, C>| #[trigger]
                fits(steps[k], after, f, num_features, mid, Ok(())) ==> can_transform(
                    after,
                    f,
                    num_features,
                    mid,
                )
        }
}

/// What was usable before it learns is usable after it has learnt, or failed to.
pub proof fn law_fitting_keeps_usable<V: Number, C: PreprocessorTrait<V>, F: Functions<V>>(
    before: Preprocessor<V, C>,
    after: Preprocessor<V, C>,
    f: &F,
    num_features: nat,
    data: Seq<V>,
    r: Result<()>,
)
    requires
        usable(before),
        fits(before, after, f, num_features, data, r),
    ensures
        usable(after),
    decreases before, 1nat,
{
    if let Preprocessor::Pipeline(a) = before {
        let b = after->Pipeline_0;
        match r {
            Ok(_) => {
                let out = choose|out: Seq<V>| #[trigger]
                    stage(a@.len() as int, out) && fits_all(a@, b@, f, num_features, data, out);
                lemma_all_usable(a@, b@, f, num_features, data, out);
            },
            Err(_) => {
                let (k, mid) = choose|k: int, mid: Seq<V>|
                    {
                        &&& #[trigger] stage(k, mid)
                        &&& 0 <= k < a@.len()
                        &&& fits_all(a@.take(k), b@.take(k), f, num_features, data, mid)
                        &&& forall|j: int| k < j < a@.len() ==> #[trigger] b@[j] == a@[j]
                        &&& fits(a@[k], b@[k], f, num_features, mid, r) || (fits(
                            a@[k],
                            b@[k],
                            f,
                            num_features,
                            mid,
                            Ok(()),
                        ) && exists|out: Seq<V>| #[trigger]
                            stage(k + 1, out) && transforms(b@[k], f, num_features, mid, out, r))
                    };
                assert forall|i: int| 0 <= i < a@.take(k).len() implies usable(
                    #[trigger] a@.take(k)[i],
                ) by {
                    assert(usable(a@[i]));
                }
                lemma_all_usable(a@.take(k), b@.take(k), f, num_features, data, mid);
                assert(usable(a@[k]));
                if fits(a@[k], b@[k], f, num_features, mid, r) {
                    law_fitting_keeps_usable(a@[k], b@[k], f, num_features, mid, r);
                } else {
                    law_fitting_keeps_usable(a@[k], b@[k], f, num_features, mid, Ok(()));
                }
                assert forall|i: int| 0 <= i < b@.len() implies usable(#[trigger] b@[i]) by {
                    if i < k {
                        assert(b@.take(k)[i] == b@[i]);
                    } else if i > k {
                        assert(usable(a@[i]));
                    }
                }
            },
        }
    }
}

proof fn lemma_all_usable<V: Number, C: PreprocessorTrait<V>, F: Functions<V>>(
    before: Seq<Preprocessor<V, C>>,
    after: Seq<Preprocessor<V, C>>,
    f: &F,
    num_features: nat,
    data: Seq<V>,
    out: Seq<V>,
)
    requires
        forall|i: int| 0 <= i < before.len() ==> usable(#[trigger] before[i]),
        after.len() == before.len(),
        fits_all(before, after, f, num_features, data, out),
    ensures
        forall|i: int| 0 <= i < after.len() ==> usable(#[trigger] after[i]),
    decreases before, 0nat,
{
    if before.len() > 0 {
        let mid = choose|mid: Seq<V>|
            {
                &&& #[trigger] stage(before.len() - 1, mid)
                &&& fits_all(before.drop_last(), after.drop_last(), f, num_features, data, mid)
                &&& fits(before.last(), after.last(), f, num_features, mid, Ok(()))
                &&& transforms(after.last(), f, num_features, mid, out, Ok(()))
            };
        lemma_all_usable(before.drop_last(), after.drop_last(), f, num_features, data, mid);
        law_fitting_keeps_usable(before.last(), after.last(), f, num_features, mid, Ok(()));
        assert forall|i: int| 0 <= i < after.len() implies usable(#[trigger] after[i]) by {
            if i < after.len() - 1 {
                assert(after[i] == after.drop_last()[i]);
            }
        }
    }
}

/// Preprocessors that are usable can learn from any table that has columns.
pub proof fn law_usable_can_fit<V: Number, C: PreprocessorTrait<V>, F: Functions<V>>(
    p: Preprocessor<V, C>,
    f: &F,
    num_features: nat,
    data: Seq<V>,
)
    requires
        usable(p),
        num_features > 0,
    ensures
        can_fit(p, f, num_features, data),
    decreases p,
{
    if let Preprocessor::Pipeline(b) = p {
        let steps = b@;
        assert forall|k: int, done: Seq<Preprocessor<V, C>>, mid: Seq<V>|
            0 <= k < steps.len() && done.len() == k && #[trigger] fits_all(
                steps.take(k),
                done,
                f,
                num_features,
                data,
                mid,
            ) implies {
            &&& can_fit(steps[k], f, num_features, mid)
            &&& forall|after: Preprocessor<V, C>| #[trigger]
                fits(steps[k], after, f, num_features, mid, Ok(())) ==> can_transform(
                    after,
                    f,
                    num_features,
                    mid,
                )
        } by {
            assert(usable(steps[k]));
            law_usable_can_fit(steps[k], f, num_features, mid);
            assert forall|after: Preprocessor<V, C>| #[trigger]
                fits(steps[k], after, f, num_features, mid, Ok(())) implies can_transform(
                after,
                f,
                num_features,
                mid,
            ) by {
                law_fitting_keeps_usable(steps[k], after, f, num_features, mid, Ok(()));
                law_usable_can_transform(after, f, num_features, mid);
            }
        }
    }
}

/// One more preprocessor lets a table through.
proof fn lemma_passes_more<V: Number, C: PreprocessorTrait<V>, F: Functions<V>>(
    steps: Seq<Preprocessor<V, C>>,
    i: int,
    f: &F,
    num_features: nat,
    before: Seq<V>,
    mid: Seq<V>,
    after: Seq<V>,
)
    requires
        0 <= i < steps.len(),
        passes(steps.take(i), f, num_features, before, mid),
        transforms(steps[i], f, num_features, mid, after, Ok(())),
    ensures
        passes(steps.take(i + 1), f, num_features, before, after),
{
    let more = steps.take(i + 1);
    assert(more.drop_last() =~= steps.take(i));
    assert(more.last() == steps[i]);
    assert(stage(more.len() - 1, mid));
}

impl<V: Number, C: PreprocessorTrait<V>> Preprocessor<V, C> {
    /// Transforms a table of numbers in place.
    pub fn transform_numerical<F: Functions<V>>(
        &self,
        data: &mut [V],
        num_features: usize,
        f: &F,
    ) -> (r: Result<()>)
        requires
            crate::number::arithmetic::<V>(),
            crate::functions::computes(f),
            can_transform(*self, f, num_features as nat, old(data)@),
        ensures
            transforms(*self, f, num_features as nat, old(data)@, final(data)@, r),
            *self is Custom && self->instance is Some ==> exists|m: &mut [V]|
                {
                    &&& #[trigger] call_ensures(
                        <C as PreprocessorTrait<V>>::transform_numerical,
                        (&self->instance->0, m, num_features),
                        r,
                    )
                    &&& m@ == old(data)@
                    &&& final(m)@ == final(data)@
                },
            *self is Pipeline ==> exists|mids: Seq<Seq<V>>|
                {
                    &&& 0 < mids.len() <= self->Pipeline_0@.len() + 1
                    &&& mids.first() == old(data)@
                    &&& #[trigger] mids.last() == final(data)@
                    &&& r is Ok ==> mids.len() == self->Pipeline_0@.len() + 1
                    &&& r is Err ==> mids.len() > 1
                    &&& forall|k: int|
                        0 <= k < mids.len() - 1 ==> transforms(
                            #[trigger] self->Pipeline_0@[k],
                            f,
                            num_features as nat,
                            mids[k],
                            mids[k + 1],
                            answer_of(k, mids.len() - 1, r),
                        )
                    &&& forall|k: int|
                        0 <= k < mids.len() - 1 && #[trigger] self->Pipeline_0@[k] is Custom
                            && self->Pipeline_0@[k]->instance is Some ==> exists|
                            m: &mut [V],
                            answer: Result<()>,
                        |
                            {
                                &&& #[trigger] call_ensures(
                                    <C as PreprocessorTrait<V>>::transform_numerical,
                                    (&self->Pipeline_0@[k]->instance->0, m, num_features),
                                    answer,
                                )
                                &&& answer == answer_of(k, mids.len() - 1, r)
                                &&& m@ == mids[k]
                                &&& final(m)@ == mids[k + 1]
                            }
                },
        decreases *self,
    {
        match self {
            Preprocessor::Standard(s) => s.transform(data, num_features),
            Preprocessor::MinMax(s) => s.transform(data, num_features),
            Preprocessor::Robust(s) => s.transform(data, num_features),
            Preprocessor::Imputer(i) => i.transform(data, num_features),
            Preprocessor::YeoJohnson(t) => t.transform(data, num_features, f),
            Preprocessor::Pipeline(steps) => {
                let ghost start = data@;
                let ghost list = steps@;
                let ghost mut mids: Seq<Seq<V>> = seq![data@];
                let mut i: usize = 0;
                assert(list.take(0) =~= Seq::empty());
                while i < steps.len()
                    invariant
                        crate::number::arithmetic::<V>(),
                        crate::functions::computes(f),
                        *self matches Preprocessor::Pipeline(b) && b@ == steps@,
                        list == steps@,
                        start == old(data)@,
                        can_transform(*self, f, num_features as nat, start),
                        i <= steps.len(),
                        passes(list.take(i as int), f, num_features as nat, start, data@),
                        mids.len() == i + 1,
                        mids.first() == start,
                        mids.last() == data@,
                        forall|k: int|
                            0 <= k < i ==> transforms(
                                #[trigger] list[k],
                                f,
                                num_features as nat,
                                mids[k],
                                mids[k + 1],
                                Ok(()),
                            ),
                        forall|k: int|
                            0 <= k < i && #[trigger] list[k] is Custom && list[k]->instance is Some
                                ==> exists|m: &mut [V], answer: Result<()>|
                                {
                                    &&& #[trigger] call_ensures(
                                        <C as PreprocessorTrait<V>>::transform_numerical,
                                        (&list[k]->instance->0, m, num_features),
                                        answer,
                                    )
                                    &&& answer == Ok::<(), TreeBoostError>(())
                                    &&& m@ == mids[k]
                                    &&& final(m)@ == mids[k + 1]
                                },
                    decreases steps.len() - i,
                {
                    let ghost mid = data@;
                    let r = steps[i].transform_numerical(data, num_features, f);
                    let ghost had = mids;
                    proof {
                        mids = had.push(data@);
                        assert forall|k: int| 0 <= k < mids.len() - 1 implies transforms(
                            #[trigger] list[k],
                            f,
                            num_features as nat,
                            mids[k],
                            mids[k + 1],
                            answer_of(k, mids.len() - 1, r),
                        ) by {
                            assert(had[k] == mids[k]);
                            if k < i {
                                assert(had[k + 1] == mids[k + 1]);
                            }
                        }
                        assert forall|k: int|
                            0 <= k < mids.len() - 1 && #[trigger] list[k] is Custom
                                && list[k]->instance is Some implies exists|
                            m: &mut [V],
                            answer: Result<()>,
                        |
                            {
                                &&& #[trigger] call_ensures(
                                    <C as PreprocessorTrait<V>>::transform_numerical,
                                    (&list[k]->instance->0, m, num_features),
                                    answer,
                                )
                                &&& answer == answer_of(k, mids.len() - 1, r)
                                &&& m@ == mids[k]
                                &&& final(m)@ == mids[k + 1]
                            } by {
                            assert(had[k] == mids[k]);
                            if k < i {
                                assert(had[k + 1] == mids[k + 1]);
                            }
                        }
                    }
                    assert(transforms(list[i as int], f, num_features as nat, mid, data@, r));
                    if r.is_err() {
                        proof {
                            let k = i as int;
                            assert(stage(k, mid));
                            assert(transforms(*self, f, num_features as nat, start, data@, r));
                            assert(mids.last() == data@);
                        }
                        return r;
                    }
                    proof {
                        let u: () = r->Ok_0;
                        assert(u == ());
                        assert(r == Ok::<(), TreeBoostError>(()));
                        lemma_passes_more(
                            list,
                            i as int,
                            f,
                            num_features as nat,
                            start,
                            mid,
                            data@,
                        );
                    }
                    i = i + 1;
                }
                assert(list.take(i as int) =~= list);
                assert(mids.last() == data@);
                Ok(())
            },
            Preprocessor::Custom { instance, .. } => {
                match instance {
                    Some(inst) => inst.transform_numerical(data, num_features),
                    None => Err(not_initialized()),
                }
            },
            _ => Err(
                TreeBoostError::Config(
                    "transform_numerical not supported for categorical encoders".to_owned(),
                ),
            ),
        }
    }
}

/// One more preprocessor has learnt, and lets a table through.
proof fn lemma_fits_more<V: Number, C: PreprocessorTrait<V>, F: Functions<V>>(
    before: Seq<Preprocessor<V, C>>,
    after: Seq<Preprocessor<V, C>>,
    i: int,
    f: &F,
    num_features: nat,
    data: Seq<V>,
    mid: Seq<V>,
    out: Seq<V>,
)
    requires
        0 <= i < before.len(),
        after.len() == before.len(),
        fits_all(before.take(i), after.take(i), f, num_features, data, mid),
        fits(before[i], after[i], f, num_features, mid, Ok(())),
        transforms(after[i], f, num_features, mid, out, Ok(())),
    ensures
        fits_all(before.take(i + 1), after.take(i + 1), f, num_features, data, out),
{
    let a = before.take(i + 1);
    let b = after.take(i + 1);
    assert(a.drop_last() =~= before.take(i));
    assert(b.drop_last() =~= after.take(i));
    assert(a.last() == before[i] && b.last() == after[i]);
    assert(stage(a.len() - 1, mid));
}

impl<V: Number, C: PreprocessorTrait<V>> Preprocessor<V, C> {
    /// Learns from a table of numbers.
    pub fn fit_numerical<F: Functions<V>>(&mut self, data: &[V], num_features: usize, f: &F) -> (r:
        Result<()>)
        requires
            crate::number::arithmetic::<V>(),
            crate::number::ordered::<V>(),
            crate::number::ranked::<V>(),
            crate::functions::computes(f),
            can_fit(*old(self), f, num_features as nat, data@),
        ensures
            fits(*old(self), *final(self), f, num_features as nat, data@, r),
            *old(self) is Custom && old(self)->instance is Some ==> exists|m: &mut C, fitted: Result<()>|
                    {
                        &&& #[trigger] call_ensures(
                            <C as PreprocessorTrait<V>>::fit_numerical,
                            (m, data, num_features),
                            fitted,
                        )
                        &&& *m == old(self)->instance->0
                        &&& *final(m) == final(self)->instance->0
                        &&& takes_down::<V, C>(final(self)->instance->0, fitted, old(self)->serialized_state, final(self)->serialized_state, r)
                    },
            *old(self) is Pipeline ==> exists|mids: Seq<Seq<V>>|
                {
                    &&& 0 < mids.len() <= old(self)->Pipeline_0@.len() + 1
                    &&& #[trigger] mids.first() == data@
                    &&& r is Ok ==> mids.len() == old(self)->Pipeline_0@.len() + 1
                    &&& r is Err ==> mids.len() <= old(self)->Pipeline_0@.len()
                    &&& forall|k: int|
                        0 <= k < mids.len() && k < old(self)->Pipeline_0@.len() && #[trigger] old(self)->Pipeline_0@[k] is Custom
                            && old(self)->Pipeline_0@[k]->instance is Some ==> exists|
                            m: &mut C,
                            table: &[V],
                            fitted: Result<()>,
                            kept: Result<()>,
                        |
                            {
                                &&& #[trigger] call_ensures(
                                    <C as PreprocessorTrait<V>>::fit_numerical,
                                    (m, table, num_features),
                                    fitted,
                                )
                                &&& table@ == mids[k]
                                &&& *m == old(self)->Pipeline_0@[k]->instance->0
                                &&& *final(m) == final(self)->Pipeline_0@[k]->instance->0
                                &&& #[trigger] takes_down::<V, C>(
                                    final(self)->Pipeline_0@[k]->instance->0,
                                    fitted,
                                    old(self)->Pipeline_0@[k]->serialized_state,
                                    final(self)->Pipeline_0@[k]->serialized_state,
                                    kept,
                                )
                                &&& kept is Err ==> k == mids.len() - 1 && kept == r
                            }
                    &&& forall|k: int|
                        0 <= k < mids.len() - 1 && #[trigger] old(self)->Pipeline_0@[k] is Custom && old(self)->Pipeline_0@[k]->instance is Some
                            ==> exists|t: &mut [V], answer: Result<()>|
                            {
                                &&& #[trigger] call_ensures(
                                    <C as PreprocessorTrait<V>>::transform_numerical,
                                    (&final(self)->Pipeline_0@[k]->instance->0, t, num_features),
                                    answer,
                                )
                                &&& answer == Ok::<(), TreeBoostError>(())
                                &&& t@ == mids[k]
                                &&& final(t)@ == mids[k + 1]
                            }
                },
            usable(*old(self)) ==> usable(*final(self)),
        decreases *old(self),
    {
        let ghost before = *self;
        let r = match self {
            Preprocessor::Standard(s) => s.fit(data, num_features, f),
            Preprocessor::MinMax(s) => s.fit(data, num_features, f),
            Preprocessor::Robust(s) => s.fit(data, num_features, f),
            Preprocessor::Imputer(i) => i.fit(data, num_features, f),
            Preprocessor::YeoJohnson(t) => t.fit(data, num_features, f),
            Preprocessor::Pipeline(steps) => Self::fit_steps(&mut **steps, data, num_features, f),
            Preprocessor::Custom { serialized_state, instance, .. } => {
                match instance {
                    Some(inst) => Self::fit_custom(inst, serialized_state, data, num_features),
                    None => Err(not_initialized()),
                }
            },
            _ => Err(
                TreeBoostError::Config(
                    "fit_numerical not supported for categorical encoders".to_owned(),
                ),
            ),
        };
        proof {
            if usable(before) {
                law_fitting_keeps_usable(before, *self, f, num_features as nat, data@, r);
            }
        }
        r
    }

    /// Lets a preprocessor of the user's learn, and takes down its state.
    fn fit_custom(
        instance: &mut C,
        state: &mut Vec<u8>,
        data: &[V],
        num_features: usize,
    ) -> (r: Result<()>)
        ensures
            custom_fits::<V, C>(
                Some(*old(instance)),
                *old(state),
                Some(*final(instance)),
                *final(state),
                num_features as nat,
                data@,
                r,
            ),
            exists|m: &mut C, fitted: Result<()>|
                {
                    &&& #[trigger] call_ensures(
                        <C as PreprocessorTrait<V>>::fit_numerical,
                        (m, data, num_features),
                        fitted,
                    )
                    &&& *m == *old(instance)
                    &&& *final(m) == *final(instance)
                    &&& takes_down::<V, C>(*final(instance), fitted, *old(state), *final(state), r)
                },
    {
        let fitted = instance.fit_numerical(data, num_features);
        assert((num_features as nat) as usize == num_features);
        if fitted.is_err() {
            return fitted;
        }
        match instance.serialize_state() {
            Ok(bytes) => {
                *state = bytes;
                Ok(())
            },
            Err(e) => Err(e),
        }
    }

    /// Lets several preprocessors learn from a table of numbers, each from what
    /// those before make of it.
    fn fit_steps<F: Functions<V>>(
        steps: &mut Vec<Preprocessor<V, C>>,
        data: &[V],
        num_features: usize,
        f: &F,
    ) -> (r: Result<()>)
        requires
            crate::number::arithmetic::<V>(),
            crate::number::ordered::<V>(),
            crate::number::ranked::<V>(),
            crate::functions::computes(f),
            can_fit_steps(old(steps)@, f, num_features as nat, data@),
        ensures
            steps_fit(old(steps)@, final(steps)@, f, num_features as nat, data@, r),
            exists|mids: Seq<Seq<V>>|
                {
                    &&& 0 < mids.len() <= old(steps)@.len() + 1
                    &&& #[trigger] mids.first() == data@
                    &&& r is Ok ==> mids.len() == old(steps)@.len() + 1
                    &&& r is Err ==> mids.len() <= old(steps)@.len()
                    &&& forall|k: int|
                        0 <= k < mids.len() && k < old(steps)@.len() && #[trigger] old(steps)@[k] is Custom
                            && old(steps)@[k]->instance is Some ==> exists|
                            m: &mut C,
                            table: &[V],
                            fitted: Result<()>,
                            kept: Result<()>,
                        |
                            {
                                &&& #[trigger] call_ensures(
                                    <C as PreprocessorTrait<V>>::fit_numerical,
                                    (m, table, num_features),
                                    fitted,
                                )
                                &&& table@ == mids[k]
                                &&& *m == old(steps)@[k]->instance->0
                                &&& *final(m) == final(steps)@[k]->instance->0
                                &&& #[trigger] takes_down::<V, C>(
                                    final(steps)@[k]->instance->0,
                                    fitted,
                                    old(steps)@[k]->serialized_state,
                                    final(steps)@[k]->serialized_state,
                                    kept,
                                )
                                &&& kept is Err ==> k == mids.len() - 1 && kept == r
                            }
                    &&& forall|k: int|
                        0 <= k < mids.len() - 1 && #[trigger] old(steps)@[k] is Custom && old(steps)@[k]->instance is Some
                            ==> exists|t: &mut [V], answer: Result<()>|
                            {
                                &&& #[trigger] call_ensures(
                                    <C as PreprocessorTrait<V>>::transform_numerical,
                                    (&final(steps)@[k]->instance->0, t, num_features),
                                    answer,
                                )
                                &&& answer == Ok::<(), TreeBoostError>(())
                                &&& t@ == mids[k]
                                &&& final(t)@ == mids[k + 1]
                            }
                },
        decreases *old(steps),
    {
        let ghost orig = steps@;
        let ghost first = *steps;
        let mut current: Vec<V> = copy_list(data);
        let ghost mut mids: Seq<Seq<V>> = seq![current@];
        let mut i: usize = 0;
        assert(orig.take(0) =~= Seq::empty());
        while i < steps.len()
            invariant
                crate::number::arithmetic::<V>(),
                crate::number::ordered::<V>(),
                crate::number::ranked::<V>(),
                crate::functions::computes(f),
                can_fit_steps(orig, f, num_features as nat, data@),
                first == *old(steps),
                first@ == orig,
                steps@.len() == orig.len(),
                i <= orig.len(),
                forall|j: int| i <= j < orig.len() ==> #[trigger] steps@[j] == orig[j],
                fits_all(
                    orig.take(i as int),
                    steps@.take(i as int),
                    f,
                    num_features as nat,
                    data@,
                    current@,
                ),
                mids.len() == i + 1,
                mids.first() == data@,
                mids.last() == current@,
                forall|k: int|
                    0 <= k < i && #[trigger] orig[k] is Custom && orig[k]->instance is Some ==> exists|
                        m: &mut C,
                        table: &[V],
                        fitted: Result<()>,
                        kept: Result<()>,
                    |
                        {
                            &&& #[trigger] call_ensures(
                                <C as PreprocessorTrait<V>>::fit_numerical,
                                (m, table, num_features),
                                fitted,
                            )
                            &&& table@ == mids[k]
                            &&& *m == orig[k]->instance->0
                            &&& *final(m) == steps@[k]->instance->0
                            &&& #[trigger] takes_down::<V, C>(
                                steps@[k]->instance->0,
                                fitted,
                                orig[k]->serialized_state,
                                steps@[k]->serialized_state,
                                kept,
                            )
                            &&& kept is Err ==> false
                        },
                forall|k: int|
                    0 <= k < i && #[trigger] orig[k] is Custom && orig[k]->instance is Some ==> exists|
                        t: &mut [V],
                        answer: Result<()>,
                    |
                        {
                            &&& #[trigger] call_ensures(
                                <C as PreprocessorTrait<V>>::transform_numerical,
                                (&steps@[k]->instance->0, t, num_features),
                                answer,
                            )
                            &&& answer == Ok::<(), TreeBoostError>(())
                            &&& t@ == mids[k]
                            &&& final(t)@ == mids[k + 1]
                        },
            decreases orig.len() - i,
        {
            let ghost mid = current@;
            let ghost had = steps@;
            assert(steps@[i as int] == first[i as int]);
            let r = steps[i].fit_numerical(current.as_slice(), num_features, f);
            proof {
                assert(steps@ =~= had.update(i as int, steps@[i as int]));
                assert(steps@.take(i as int) =~= had.take(i as int));
                assert(fits(orig[i as int], steps@[i as int], f, num_features as nat, mid, r));
                assert forall|k: int|
                    0 <= k < i + 1 && #[trigger] orig[k] is Custom && orig[k]->instance is Some implies exists|
                        m: &mut C,
                        table: &[V],
                        fitted: Result<()>,
                        kept: Result<()>,
                    |
                        {
                            &&& #[trigger] call_ensures(
                                <C as PreprocessorTrait<V>>::fit_numerical,
                                (m, table, num_features),
                                fitted,
                            )
                            &&& table@ == mids[k]
                            &&& *m == orig[k]->instance->0
                            &&& *final(m) == steps@[k]->instance->0
                            &&& #[trigger] takes_down::<V, C>(
                                steps@[k]->instance->0,
                                fitted,
                                orig[k]->serialized_state,
                                steps@[k]->serialized_state,
                                kept,
                            )
                            &&& kept is Err ==> k == i && kept == r
                        } by {
                    assert(k < i ==> steps@[k] == had[k]);
                }
                assert forall|k: int|
                    0 <= k < i && #[trigger] orig[k] is Custom && orig[k]->instance is Some implies exists|
                        t: &mut [V],
                        answer: Result<()>,
                    |
                        {
                            &&& #[trigger] call_ensures(
                                <C as PreprocessorTrait<V>>::transform_numerical,
                                (&steps@[k]->instance->0, t, num_features),
                                answer,
                            )
                            &&& answer == Ok::<(), TreeBoostError>(())
                            &&& t@ == mids[k]
                            &&& final(t)@ == mids[k + 1]
                        } by {
                    assert(steps@[k] == had[k]);
                }
                assert(mids.first() == data@);
            }
            if r.is_err() {
                assert(stage(i as int, mid));
                return r;
            }
            proof {
                let u: () = r->Ok_0;
                assert(u == ());
            }
            let t = steps[i].transform_numerical(current.as_mut_slice(), num_features, f);
            if t.is_err() {
                assert(stage(i as int, mid));
                assert(stage(i + 1, current@));
                return t;
            }
            proof {
                let u: () = t->Ok_0;
                assert(u == ());
                let came = mids;
                mids = came.push(current@);
                assert forall|k: int| 0 <= k <= i implies #[trigger] came[k] == mids[k] by {}
                lemma_fits_more(
                    orig,
                    steps@,
                    i as int,
                    f,
                    num_features as nat,
                    data@,
                    mid,
                    current@,
                );
            }
            i = i + 1;
        }
        proof {
            assert(orig.take(i as int) =~= orig);
            assert(steps@.take(i as int) =~= steps@);
            assert(stage(orig.len() as int, current@));
        }
        Ok(())
    }
}

/// What comes of learning from a table of numbers and then transforming it.
pub open spec fn fits_and_transforms<V: Number, C: PreprocessorTrait<V>, F: Functions<V>>(
    before: Preprocessor<V, C>,
    after: Preprocessor<V, C>,
    f: &F,
    num_features: nat,
    data: Seq<V>,
    out: Seq<V>,
    r: Result<()>,
) -> bool {
    ||| r is Err && fits(before, after, f, num_features, data, r) && out == data
    ||| fits(before, after, f, num_features, data, Ok(())) && transforms(
        after,
        f,
        num_features,
        data,
        out,
        r,
    )
}

/// What comes of learning from a list of categories: the preprocessor becomes
/// `after`.
pub open spec fn fits_categories<V: Number, C: PreprocessorTrait<V>>(
    before: Preprocessor<V, C>,
    after: Preprocessor<V, C>,
    categories: Seq<&str>,
    r: Result<()>,
) -> bool {
    match before {
        Preprocessor::Frequency(a) => {
            &&& after matches Preprocessor::Frequency(b)
            &&& r is Ok
            &&& b@ == (Frequencies {
                counts: crate::preprocessing::frequency::tally(crate::text::words(categories)),
                total: categories.len(),
                fitted: true,
                ..a@
            })
        },
        Preprocessor::Label(a) => {
            &&& after matches Preprocessor::Label(b)
            &&& r is Ok
            &&& b@ == (Labels {
                classes: crate::text::distinct_of(crate::text::words(categories)),
                unknown: a@.unknown,
                fitted: true,
            })
        },
        Preprocessor::OneHot(a) => {
            &&& after matches Preprocessor::OneHot(b)
            &&& a@.learns(b@, categories, r)
        },
        Preprocessor::Custom { type_id, serialized_state, instance } => {
            &&& after matches Preprocessor::Custom {
                type_id: id,
                serialized_state: state,
                instance: made,
            }
            &&& id == type_id
            &&& custom_fits_categories::<V, C>(
                instance,
                serialized_state,
                made,
                state,
                categories,
                r,
            )
        },
        _ => {
            &&& r is Err
            &&& r->Err_0.is_config("fit_categorical not supported for numerical scalers"@)
            &&& after == before
        },
    }
}

/// What comes of turning a list of categories into numbers.
pub open spec fn encodes<V: Number, C: PreprocessorTrait<V>, F: Functions<V>>(
    p: Preprocessor<V, C>,
    f: &F,
    categories: &[&str],
    r: Result<Vec<V>>,
) -> bool {
    match p {
        Preprocessor::Frequency(e) => e@.codes(categories@, f, r),
        Preprocessor::Label(e) => e@.codes(categories@, f, r),
        Preprocessor::OneHot(e) => e@.codes(categories@, r),
        Preprocessor::Custom { instance, .. } => match instance {
            Some(made) => call_ensures(
                <C as PreprocessorTrait<V>>::transform_categorical,
                (&made, categories),
                r,
            ),
            None => r is Err && r->Err_0.is_config(not_initialized_text()),
        },
        _ => {
            &&& r is Err
            &&& r->Err_0.is_config("transform_categorical not supported for numerical scalers"@)
        },
    }
}

/// What comes of learning from a list of categories and turning them into
/// numbers.
pub open spec fn fits_and_encodes<V: Number, C: PreprocessorTrait<V>, F: Functions<V>>(
    before: Preprocessor<V, C>,
    after: Preprocessor<V, C>,
    f: &F,
    categories: &[&str],
    r: Result<Vec<V>>,
) -> bool {
    ||| r is Err && fits_categories(before, after, categories@, Err(r->Err_0))
    ||| fits_categories(before, after, categories@, Ok(())) && encodes(after, f, categories, r)
}

impl<V: Number, C: PreprocessorTrait<V>> Preprocessor<V, C> {
    /// Learns from a table of numbers and transforms it in place.
    pub fn fit_transform_numerical<F: Functions<V>>(
        &mut self,
        data: &mut [V],
        num_features: usize,
        f: &F,
    ) -> (r: Result<()>)
        requires
            crate::number::arithmetic::<V>(),
            crate::number::ordered::<V>(),
            crate::number::ranked::<V>(),
            crate::functions::computes(f),
            can_fit(*old(self), f, num_features as nat, old(data)@),
            forall|after: Self| #[trigger]
                fits(*old(self), after, f, num_features as nat, old(data)@, Ok(()))
                    ==> can_transform(after, f, num_features as nat, old(data)@),
        ensures
            fits_and_transforms(
                *old(self),
                *final(self),
                f,
                num_features as nat,
                old(data)@,
                final(data)@,
                r,
            ),
            *old(self) is Custom && old(self)->instance is Some ==> exists|
                m: &mut C,
                fitted: Result<()>,
                kept: Result<()>,
            |
                {
                    &&& #[trigger] call_ensures(
                        <C as PreprocessorTrait<V>>::fit_numerical,
                        (m, &*old(data), num_features),
                        fitted,
                    )
                    &&& *m == old(self)->instance->0
                    &&& *final(m) == final(self)->instance->0
                    &&& #[trigger] takes_down::<V, C>(
                        final(self)->instance->0,
                        fitted,
                        old(self)->serialized_state,
                        final(self)->serialized_state,
                        kept,
                    )
                    &&& kept is Err ==> r == kept && final(data)@ == old(data)@
                    &&& kept is Ok ==> exists|d: &mut [V]|
                        {
                            &&& #[trigger] call_ensures(
                                <C as PreprocessorTrait<V>>::transform_numerical,
                                (&final(self)->instance->0, d, num_features),
                                r,
                            )
                            &&& d@ == old(data)@
                            &&& final(d)@ == final(data)@
                        }
                },
            *old(self) is Pipeline ==> exists|mids: Seq<Seq<V>>, kept: Result<()>|
                {
                    &&& #[trigger] fits(
                        *old(self),
                        *final(self),
                        f,
                        num_features as nat,
                        old(data)@,
                        kept,
                    )
                    &&& kept is Err ==> r == kept && final(data)@ == old(data)@
                    &&& 0 < mids.len() <= old(self)->Pipeline_0@.len() + 1
                    &&& #[trigger] mids.first() == old(data)@
                    &&& kept is Ok ==> mids.len() == old(self)->Pipeline_0@.len() + 1
                    &&& kept is Err ==> mids.len() <= old(self)->Pipeline_0@.len()
                    &&& forall|k: int|
                        0 <= k < mids.len() && k < old(self)->Pipeline_0@.len() && #[trigger] old(self)->Pipeline_0@[k] is Custom
                            && old(self)->Pipeline_0@[k]->instance is Some ==> exists|
                            m: &mut C,
                            table: &[V],
                            fitted: Result<()>,
                            stored: Result<()>,
                        |
                            {
                                &&& #[trigger] call_ensures(
                                    <C as PreprocessorTrait<V>>::fit_numerical,
                                    (m, table, num_features),
                                    fitted,
                                )
                                &&& table@ == mids[k]
                                &&& *m == old(self)->Pipeline_0@[k]->instance->0
                                &&& *final(m) == final(self)->Pipeline_0@[k]->instance->0
                                &&& #[trigger] takes_down::<V, C>(
                                    final(self)->Pipeline_0@[k]->instance->0,
                                    fitted,
                                    old(self)->Pipeline_0@[k]->serialized_state,
                                    final(self)->Pipeline_0@[k]->serialized_state,
                                    stored,
                                )
                                &&& stored is Err ==> k == mids.len() - 1 && stored == kept
                            }
                    &&& forall|k: int|
                        0 <= k < mids.len() - 1 && #[trigger] old(self)->Pipeline_0@[k] is Custom && old(self)->Pipeline_0@[k]->instance is Some
                            ==> exists|t: &mut [V], answer: Result<()>|
                            {
                                &&& #[trigger] call_ensures(
                                    <C as PreprocessorTrait<V>>::transform_numerical,
                                    (&final(self)->Pipeline_0@[k]->instance->0, t, num_features),
                                    answer,
                                )
                                &&& answer == Ok::<(), TreeBoostError>(())
                                &&& t@ == mids[k]
                                &&& final(t)@ == mids[k + 1]
                            }
                    &&& kept is Ok ==> exists|outs: Seq<Seq<V>>|
                        {
                            &&& 0 < outs.len() <= final(self)->Pipeline_0@.len() + 1
                            &&& outs.first() == old(data)@
                            &&& #[trigger] outs.last() == final(data)@
                            &&& r is Ok ==> outs.len() == final(self)->Pipeline_0@.len() + 1
                            &&& r is Err ==> outs.len() > 1
                            &&& forall|k: int|
                                0 <= k < outs.len() - 1 ==> transforms(
                                    #[trigger] final(self)->Pipeline_0@[k],
                                    f,
                                    num_features as nat,
                                    outs[k],
                                    outs[k + 1],
                                    answer_of(k, outs.len() - 1, r),
                                )
                            &&& forall|k: int|
                                0 <= k < outs.len() - 1 && #[trigger] final(self)->Pipeline_0@[k] is Custom
                                    && final(self)->Pipeline_0@[k]->instance is Some ==> exists|
                                    m: &mut [V],
                                    answer: Result<()>,
                                |
                                    {
                                        &&& #[trigger] call_ensures(
                                            <C as PreprocessorTrait<V>>::transform_numerical,
                                            (&final(self)->Pipeline_0@[k]->instance->0, m, num_features),
                                            answer,
                                        )
                                        &&& answer == answer_of(k, outs.len() - 1, r)
                                        &&& m@ == outs[k]
                                        &&& final(m)@ == outs[k + 1]
                                    }
                        }
                },
            usable(*old(self)) ==> usable(*final(self)),
    {
        let fitted = self.fit_numerical(data, num_features, f);
        if fitted.is_err() {
            return fitted;
        }
        proof {
            let u: () = fitted->Ok_0;
            assert(u == ());
        }
        self.transform_numerical(data, num_features, f)
    }

    /// Lets a preprocessor of the user's learn from categories, and takes down
    /// its state.
    fn fit_custom_categories(
        instance: &mut C,
        state: &mut Vec<u8>,
        categories: &[&str],
    ) -> (r: Result<()>)
        ensures
            exists|m: &mut C, fitted: Result<()>|
                {
                    &&& #[trigger] call_ensures(
                        <C as PreprocessorTrait<V>>::fit_categorical,
                        (m, categories),
                        fitted,
                    )
                    &&& *m == *old(instance)
                    &&& *final(m) == *final(instance)
                    &&& takes_down::<V, C>(*final(instance), fitted, *old(state), *final(state), r)
                },
    {
        let fitted = instance.fit_categorical(categories);
        if fitted.is_err() {
            return fitted;
        }
        match instance.serialize_state() {
            Ok(bytes) => {
                *state = bytes;
                Ok(())
            },
            Err(e) => Err(e),
        }
    }

    /// Learns from a list of categories.
    pub fn fit_categorical(&mut self, categories: &[&str]) -> (r: Result<()>)
        ensures
            fits_categories(*old(self), *final(self), categories@, r),
            *old(self) is Custom && old(self)->instance is Some ==> exists|m: &mut C, fitted: Result<()>|
                    {
                        &&& #[trigger] call_ensures(
                            <C as PreprocessorTrait<V>>::fit_categorical,
                            (m, categories),
                            fitted,
                        )
                        &&& *m == old(self)->instance->0
                        &&& *final(m) == final(self)->instance->0
                        &&& takes_down::<V, C>(final(self)->instance->0, fitted, old(self)->serialized_state, final(self)->serialized_state, r)
                    },
            usable(*old(self)) ==> usable(*final(self)),
    {
        match self {
            Preprocessor::Frequency(e) => {
                e.fit(categories);
                Ok(())
            },
            Preprocessor::Label(e) => {
                e.fit(categories);
                Ok(())
            },
            Preprocessor::OneHot(e) => e.fit(categories),
            Preprocessor::Custom { serialized_state, instance, .. } => {
                match instance {
                    Some(inst) => Self::fit_custom_categories(inst, serialized_state, categories),
                    None => Err(not_initialized()),
                }
            },
            _ => Err(
                TreeBoostError::Config(
                    "fit_categorical not supported for numerical scalers".to_owned(),
                ),
            ),
        }
    }

    /// Turns a list of categories into numbers.
    pub fn transform_categorical<F: Functions<V>>(&self, categories: &[&str], f: &F) -> (r: Result<
        Vec<V>,
    >)
        requires
            crate::number::arithmetic::<V>(),
            crate::functions::computes(f),
        ensures
            encodes(*self, f, categories, r),
    {
        match self {
            Preprocessor::Frequency(e) => e.transform(categories, f),
            Preprocessor::Label(e) => e.transform_f32(categories, f),
            Preprocessor::OneHot(e) => e.transform(categories),
            Preprocessor::Custom { instance, .. } => {
                match instance {
                    Some(inst) => inst.transform_categorical(categories),
                    None => Err(not_initialized()),
                }
            },
            _ => Err(
                TreeBoostError::Config(
                    "transform_categorical not supported for numerical scalers".to_owned(),
                ),
            ),
        }
    }

    /// Learns from a list of categories and turns them into numbers.
    pub fn fit_transform_categorical<F: Functions<V>>(
        &mut self,
        categories: &[&str],
        f: &F,
    ) -> (r: Result<Vec<V>>)
        requires
            crate::number::arithmetic::<V>(),
            crate::functions::computes(f),
        ensures
            fits_and_encodes(*old(self), *final(self), f, categories, r),
            *old(self) is Custom && old(self)->instance is Some ==> exists|
                m: &mut C,
                fitted: Result<()>,
                kept: Result<()>,
            |
                {
                    &&& #[trigger] call_ensures(
                        <C as PreprocessorTrait<V>>::fit_categorical,
                        (m, categories),
                        fitted,
                    )
                    &&& *m == old(self)->instance->0
                    &&& *final(m) == final(self)->instance->0
                    &&& #[trigger] takes_down::<V, C>(
                        final(self)->instance->0,
                        fitted,
                        old(self)->serialized_state,
                        final(self)->serialized_state,
                        kept,
                    )
                    &&& kept is Err ==> r is Err && r->Err_0 == kept->Err_0
                    &&& kept is Ok ==> call_ensures(
                        <C as PreprocessorTrait<V>>::transform_categorical,
                        (&final(self)->instance->0, categories),
                        r,
                    )
                },
            usable(*old(self)) ==> usable(*final(self)),
    {
        match self.fit_categorical(categories) {
            Ok(u) => {
                assert(u == ());
                self.transform_categorical(categories, f)
            },
            Err(e) => Err(e),
        }
    }
}

/// `r` may be the answer to whether a preprocessor has learnt what it needs: a
/// chain has if all its members have.
pub open spec fn tells_fitted<V, C: PreprocessorTrait<V>>(p: Preprocessor<V, C>, r: bool) -> bool
    decreases p,
{
    match p {
        Preprocessor::Standard(s) => r == s.fitted,
        Preprocessor::MinMax(s) => r == s.fitted,
        Preprocessor::Robust(s) => r == s.fitted,
        Preprocessor::Frequency(e) => r == e@.fitted,
        Preprocessor::Label(e) => r == e@.fitted,
        Preprocessor::OneHot(e) => r == e@.fitted,
        Preprocessor::Imputer(i) => r == i.fitted,
        Preprocessor::YeoJohnson(t) => r == t.fitted,
        Preprocessor::Pipeline(steps) => if r {
            forall|i: int| 0 <= i < steps@.len() ==> tells_fitted(#[trigger] steps@[i], true)
        } else {
            exists|i: int| 0 <= i < steps@.len() && tells_fitted(#[trigger] steps@[i], false)
        },
        Preprocessor::Custom { instance, .. } => match instance {
            Some(made) => call_ensures(<C as PreprocessorTrait<V>>::is_fitted, (&made,), r),
            None => !r,
        },
    }
}

/// A chain of preprocessors holds none of the user's.
pub open spec fn built_in<V, C>(p: Preprocessor<V, C>) -> bool
    decreases p,
{
    match p {
        Preprocessor::Pipeline(steps) => forall|i: int|
            0 <= i < steps@.len() ==> built_in(#[trigger] steps@[i]),
        Preprocessor::Custom { .. } => false,
        _ => true,
    }
}

/// What has learnt from a table of numbers without an error is fitted
/// afterwards, a chain of preprocessors with all its members.
pub proof fn law_fitting_makes_fitted<V: Number, C: PreprocessorTrait<V>, F: Functions<V>>(
    before: Preprocessor<V, C>,
    after: Preprocessor<V, C>,
    f: &F,
    num_features: nat,
    data: Seq<V>,
)
    requires
        built_in(before),
        fits(before, after, f, num_features, data, Ok(())),
    ensures
        forall|r: bool| #[trigger] tells_fitted(after, r) <==> r,
    decreases before, 1nat,
{
    if let Preprocessor::Pipeline(a) = before {
        let b = after->Pipeline_0;
        let out = choose|out: Seq<V>| #[trigger]
            stage(a@.len() as int, out) && fits_all(a@, b@, f, num_features, data, out);
        lemma_all_fitted(a@, b@, f, num_features, data, out);
        assert forall|i: int| 0 <= i < b@.len() implies tells_fitted(#[trigger] b@[i], true)
            && !tells_fitted(b@[i], false) by {}
        assert(tells_fitted(after, true));
        assert(!tells_fitted(after, false));
    }
}

proof fn lemma_all_fitted<V: Number, C: PreprocessorTrait<V>, F: Functions<V>>(
    before: Seq<Preprocessor<V, C>>,
    after: Seq<Preprocessor<V, C>>,
    f: &F,
    num_features: nat,
    data: Seq<V>,
    out: Seq<V>,
)
    requires
        forall|i: int| 0 <= i < before.len() ==> built_in(#[trigger] before[i]),
        after.len() == before.len(),
        fits_all(before, after, f, num_features, data, out),
    ensures
        forall|i: int, r: bool|
            0 <= i < after.len() ==> (#[trigger] tells_fitted(after[i], r) <==> r),
    decreases before, 0nat,
{
    if before.len() > 0 {
        let mid = choose|mid: Seq<V>|
            {
                &&& #[trigger] stage(before.len() - 1, mid)
                &&& fits_all(before.drop_last(), after.drop_last(), f, num_features, data, mid)
                &&& fits(before.last(), after.last(), f, num_features, mid, Ok(()))
                &&& transforms(after.last(), f, num_features, mid, out, Ok(()))
            };
        lemma_all_fitted(before.drop_last(), after.drop_last(), f, num_features, data, mid);
        law_fitting_makes_fitted(before.last(), after.last(), f, num_features, mid);
        assert forall|i: int, r: bool| 0 <= i < after.len() implies (#[trigger] tells_fitted(
            after[i],
            r,
        ) <==> r) by {
            if i < after.len() - 1 {
                assert(after[i] == after.drop_last()[i]);
            }
        }
    }
}

impl<V: Number, C: PreprocessorTrait<V>> Preprocessor<V, C> {
    /// Whether the preprocessor has learnt what it needs.
    pub fn is_fitted(&self) -> (r: bool)
        ensures
            tells_fitted(*self, r),
        decreases *self,
    {
        match self {
            Preprocessor::Standard(s) => s.is_fitted(),
            Preprocessor::MinMax(s) => s.is_fitted(),
            Preprocessor::Robust(s) => s.is_fitted(),
            Preprocessor::Frequency(e) => e.is_fitted(),
            Preprocessor::Label(e) => e.is_fitted(),
            Preprocessor::OneHot(e) => e.is_fitted(),
            Preprocessor::Imputer(i) => i.is_fitted(),
            Preprocessor::YeoJohnson(t) => t.is_fitted(),
            Preprocessor::Pipeline(steps) => {
                let ghost list = steps@;
                let mut i: usize = 0;
                while i < steps.len()
                    invariant
                        *self matches Preprocessor::Pipeline(b) && b@ == steps@,
                        list == steps@,
                        i <= steps.len(),
                        forall|j: int| 0 <= j < i ==> tells_fitted(#[trigger] list[j], true),
                    decreases steps.len() - i,
                {
                    if !steps[i].is_fitted() {
                        assert(tells_fitted(list[i as int], false));
                        return false;
                    }
                    i = i + 1;
                }
                true
            },
            Preprocessor::Custom { instance, .. } => {
                match instance {
                    Some(inst) => inst.is_fitted(),
                    None => false,
                }
            },
        }
    }

    /// Whether tables of numbers can be handed to the preprocessor on its own.
    pub fn is_numerical(&self) -> (r: bool)
        ensures
            match *self {
                Preprocessor::Standard(_) => r,
                Preprocessor::MinMax(_) => r,
                Preprocessor::Robust(_) => r,
                Preprocessor::Imputer(_) => r,
                Preprocessor::YeoJohnson(_) => r,
                Preprocessor::Custom { instance: Some(made), .. } => call_ensures(
                    <C as PreprocessorTrait<V>>::supports_numerical,
                    (&made,),
                    r,
                ),
                _ => !r,
            },
    {
        match self {
            Preprocessor::Standard(_) => true,
            Preprocessor::MinMax(_) => true,
            Preprocessor::Robust(_) => true,
            Preprocessor::Imputer(_) => true,
            Preprocessor::YeoJohnson(_) => true,
            Preprocessor::Custom { instance, .. } => {
                match instance {
                    Some(inst) => inst.supports_numerical(),
                    None => false,
                }
            },
            _ => false,
        }
    }

    /// Whether categories can be handed to the preprocessor.
    pub fn is_categorical(&self) -> (r: bool)
        ensures
            match *self {
                Preprocessor::Frequency(_) => r,
                Preprocessor::Label(_) => r,
                Preprocessor::OneHot(_) => r,
                Preprocessor::Custom { instance: Some(made), .. } => call_ensures(
                    <C as PreprocessorTrait<V>>::supports_categorical,
                    (&made,),
                    r,
                ),
                _ => !r,
            },
    {
        match self {
            Preprocessor::Frequency(_) => true,
            Preprocessor::Label(_) => true,
            Preprocessor::OneHot(_) => true,
            Preprocessor::Custom { instance, .. } => {
                match instance {
                    Some(inst) => inst.supports_categorical(),
                    None => false,
                }
            },
            _ => false,
        }
    }

    /// Whether this fills in missing numbers.
    pub fn is_imputer(&self) -> (r: bool)
        ensures
            r == (*self is Imputer),
    {
        matches!(self, Preprocessor::Imputer(_))
    }

    /// Whether this brings columns closer to a normal distribution.
    pub fn is_transform(&self) -> (r: bool)
        ensures
            r == (*self is YeoJohnson),
    {
        matches!(self, Preprocessor::YeoJohnson(_))
    }

    /// Whether this is a chain of preprocessors.
    pub fn is_pipeline(&self) -> (r: bool)
        ensures
            r == (*self is Pipeline),
    {
        matches!(self, Preprocessor::Pipeline(_))
    }

    /// Whether this is a preprocessor of the user's.
    pub fn is_custom(&self) -> (r: bool)
        ensures
            r == (*self is Custom),
    {
        matches!(self, Preprocessor::Custom { .. })
    }

    /// How many columns a column of categories becomes.
    pub fn num_output_columns(&self) -> (r: Option<usize>)
        ensures
            match *self {
                Preprocessor::Frequency(_) => r == Some(1usize),
                Preprocessor::Label(_) => r == Some(1usize),
                Preprocessor::OneHot(e) => r is Some && r->0 == e@.width(),
                _ => r is None,
            },
    {
        match self {
            Preprocessor::Frequency(_) => Some(1),
            Preprocessor::Label(_) => Some(1),
            Preprocessor::OneHot(e) => Some(e.num_columns()),
            _ => None,
        }
    }
}

/// What comes of taking in a preprocessor of the user's, of which `id` is the
/// kind and `bytes` the state.
pub open spec fn wraps<V, C>(
    preprocessor: C,
    id: Seq<char>,
    bytes: Result<Vec<u8>>,
    r: Result<Preprocessor<V, C>>,
) -> bool {
    match bytes {
        Ok(state) => {
            &&& r is Ok
            &&& r->Ok_0 matches Preprocessor::Custom { type_id, serialized_state, instance }
            &&& type_id@ == id
            &&& serialized_state == state
            &&& instance == Some(preprocessor)
        },
        Err(e) => r is Err && r->Err_0 == e,
    }
}

/// What comes of making the preprocessors of the user's from their states,
/// where that has still to be done.
pub open spec fn initializes<V, C, K: Fn(&[u8]) -> Result<C>>(
    before: Preprocessor<V, C>,
    after: Preprocessor<V, C>,
    entries: Map<Seq<char>, K>,
    r: Result<()>,
) -> bool
    decreases before,
{
    match before {
        Preprocessor::Custom { type_id, serialized_state, instance: None } => {
            &&& after matches Preprocessor::Custom {
                type_id: id,
                serialized_state: state,
                instance: made,
            }
            &&& id == type_id
            &&& state == serialized_state
            &&& r is Ok <==> made is Some
            &&& made_from(
                entries,
                type_id@,
                serialized_state@,
                match made {
                    Some(c) => Ok(c),
                    None => Err(r->Err_0),
                },
            )
        },
        Preprocessor::Pipeline(a) => {
            &&& after matches Preprocessor::Pipeline(b)
            &&& b@.len() == a@.len()
            &&& match r {
                Ok(_) => forall|i: int|
                    0 <= i < a@.len() ==> initializes(a@[i], #[trigger] b@[i], entries, Ok(())),
                Err(_) => exists|k: int|
                    {
                        &&& #[trigger] stopped_at(k)
                        &&& 0 <= k < a@.len()
                        &&& initializes(a@[k], b@[k], entries, r)
                        &&& forall|i: int|
                            0 <= i < k ==> initializes(a@[i], #[trigger] b@[i], entries, Ok(()))
                        &&& forall|i: int| k < i < a@.len() ==> #[trigger] b@[i] == a@[i]
                    },
            }
        },
        _ => r is Ok && after == before,
    }
}

/// Always true. It stands in quantifiers over the member `k` of a chain at which
/// it stops, as their trigger.
pub open spec fn stopped_at(k: int) -> bool {
    true
}

/// `r` may be what comes of making a preprocessor from a state that holds these
/// bytes.
pub open spec fn made_from<C, K: Fn(&[u8]) -> Result<C>>(
    entries: Map<Seq<char>, K>,
    type_id: Seq<char>,
    state: Seq<u8>,
    r: Result<C>,
) -> bool {
    exists|slice: &[u8]|
        slice@ == state && #[trigger] crate::preprocessing::registry::constructs(
            entries,
            type_id,
            slice,
            r,
        )
}

impl<V: Number, C: PreprocessorTrait<V>> Preprocessor<V, C> {
    /// Takes in a preprocessor of the user's.
    pub fn custom(preprocessor: C) -> (r: Result<Self>)
        ensures
            exists|id: &'static str, bytes: Result<Vec<u8>>|
                {
                    &&& #[trigger] call_ensures(
                        <C as PreprocessorTrait<V>>::type_id,
                        (&preprocessor,),
                        id,
                    )
                    &&& #[trigger] call_ensures(
                        <C as PreprocessorTrait<V>>::serialize_state,
                        (&preprocessor,),
                        bytes,
                    )
                    &&& wraps(preprocessor, id@, bytes, r)
                },
    {
        let id: &'static str = preprocessor.type_id();
        let state = preprocessor.serialize_state();
        let ghost bytes = state;
        let r = match state {
            Ok(serialized_state) => Ok(
                Preprocessor::Custom {
                    type_id: id.to_owned(),
                    serialized_state,
                    instance: Some(preprocessor),
                },
            ),
            Err(e) => Err(e),
        };
        proof {
            assert(call_ensures(<C as PreprocessorTrait<V>>::type_id, (&preprocessor,), id));
            assert(call_ensures(
                <C as PreprocessorTrait<V>>::serialize_state,
                (&preprocessor,),
                bytes,
            ));
            assert(wraps(preprocessor, id@, bytes, r));
        }
        r
    }

    /// Makes the preprocessors of the user's from their states, where that has
    /// still to be done.
    pub fn ensure_initialized<K: Fn(&[u8]) -> Result<C>>(&mut self, registry: &Registry<K>) -> (r:
        Result<()>)
        requires
            forall|id: Seq<char>, state: &[u8]|
                registry@.contains_key(id) ==> #[trigger] call_requires(registry@[id], (state,)),
        ensures
            initializes(*old(self), *final(self), registry@, r),
        decreases *old(self),
    {
        match self {
            Preprocessor::Custom { type_id, serialized_state, instance } => {
                if instance.is_none() {
                    let slice = serialized_state.as_slice();
                    let result = construct_preprocessor(registry, type_id.as_str(), slice);
                    assert(made_from(registry@, type_id@, serialized_state@, result));
                    match result {
                        Ok(made) => {
                            *instance = Some(made);
                            Ok(())
                        },
                        Err(e) => Err(e),
                    }
                } else {
                    Ok(())
                }
            },
            Preprocessor::Pipeline(steps) => Self::ensure_steps(&mut **steps, registry),
            _ => Ok(()),
        }
    }

    /// Makes the preprocessors of the user's in a list from their states, where
    /// that has still to be done.
    fn ensure_steps<K: Fn(&[u8]) -> Result<C>>(
        steps: &mut Vec<Preprocessor<V, C>>,
        registry: &Registry<K>,
    ) -> (r: Result<()>)
        requires
            forall|id: Seq<char>, state: &[u8]|
                registry@.contains_key(id) ==> #[trigger] call_requires(registry@[id], (state,)),
        ensures
            final(steps)@.len() == old(steps)@.len(),
            match r {
                Ok(_) => forall|i: int|
                    0 <= i < old(steps)@.len() ==> initializes(
                        old(steps)@[i],
                        #[trigger] final(steps)@[i],
                        registry@,
                        Ok(()),
                    ),
                Err(_) => exists|k: int|
                    {
                        &&& #[trigger] stopped_at(k)
                        &&& 0 <= k < old(steps)@.len()
                        &&& initializes(old(steps)@[k], final(steps)@[k], registry@, r)
                        &&& forall|i: int|
                            0 <= i < k ==> initializes(
                                old(steps)@[i],
                                #[trigger] final(steps)@[i],
                                registry@,
                                Ok(()),
                            )
                        &&& forall|i: int|
                            k < i < old(steps)@.len() ==> #[trigger] final(steps)@[i] == old(
                                steps,
                            )@[i]
                    },
            },
        decreases *old(steps),
    {
        let ghost first = *steps;
        let mut i: usize = 0;
        while i < steps.len()
            invariant
                forall|id: Seq<char>, state: &[u8]|
                    registry@.contains_key(id) ==> #[trigger] call_requires(
                        registry@[id],
                        (state,),
                    ),
                first == *old(steps),
                steps@.len() == first@.len(),
                i <= first@.len(),
                forall|j: int|
                    0 <= j < i ==> initializes(
                        first@[j],
                        #[trigger] steps@[j],
                        registry@,
                        Ok(()),
                    ),
                forall|j: int| i <= j < first@.len() ==> #[trigger] steps@[j] == first@[j],
            decreases first@.len() - i,
        {
            let ghost had = steps@;
            assert(steps@[i as int] == first[i as int]);
            let r = steps[i].ensure_initialized(registry);
            proof {
                assert(steps@ =~= had.update(i as int, steps@[i as int]));
                assert(initializes(first@[i as int], steps@[i as int], registry@, r));
                assert forall|j: int| 0 <= j < i implies initializes(
                    first@[j],
                    #[trigger] steps@[j],
                    registry@,
                    Ok(()),
                ) by {
                    assert(steps@[j] == had[j]);
                }
            }
            if r.is_err() {
                assert(stopped_at(i as int));
                return r;
            }
            proof {
                let u: () = r->Ok_0;
                assert(u == ());
            }
            i = i + 1;
        }
        Ok(())
    }
}

/// No preprocessor of the user's has still to be made from its state.
pub open spec fn initialized<V, C>(p: Preprocessor<V, C>) -> bool
    decreases p,
{
    match p {
        Preprocessor::Pipeline(steps) => forall|i: int|
            0 <= i < steps@.len() ==> initialized(#[trigger] steps@[i]),
        Preprocessor::Custom { instance, .. } => instance is Some,
        _ => true,
    }
}

/// Where making the preprocessors of the user's has succeeded, none of them is
/// left to be made.
pub proof fn law_initializing_is_complete<V, C, K: Fn(&[u8]) -> Result<C>>(
    before: Preprocessor<V, C>,
    after: Preprocessor<V, C>,
    entries: Map<Seq<char>, K>,
)
    requires
        initializes(before, after, entries, Ok(())),
    ensures
        initialized(after),
    decreases before,
{
    if let Preprocessor::Pipeline(a) = before {
        let b = after->Pipeline_0;
        assert forall|i: int| 0 <= i < b@.len() implies initialized(#[trigger] b@[i]) by {
            assert(initializes(a@[i], b@[i], entries, Ok(())));
            law_initializing_is_complete(a@[i], b@[i], entries);
        }
    }
}

/// Puts a chain of preprocessors together.
#[derive(Debug, Clone)]
pub struct PipelineBuilder<V, C> {
    /// The preprocessors so far.
    pub steps: Vec<Preprocessor<V, C>>,
}

impl<V: Number, C: PreprocessorTrait<V>> PipelineBuilder<V, C> {
    /// No preprocessors yet.
    pub fn new() -> (r: Self)
        ensures
            r.steps@.len() == 0,
    {
        PipelineBuilder { steps: Vec::new() }
    }

    /// Adds a scaler to mean zero and standard deviation one.
    pub fn with_standard_scaler(self) -> (r: Self)
        ensures
            appends(self.steps@, r.steps@),
            r.steps@.last() matches Preprocessor::Standard(s) && !s.fitted && s.wf(),
    {
        self.with_preprocessor(Preprocessor::Standard(StandardScaler::new()))
    }

    /// Adds a scaler to the range from zero to one.
    pub fn with_minmax_scaler(self) -> (r: Self)
        requires
            crate::number::arithmetic::<V>(),
        ensures
            appends(self.steps@, r.steps@),
            r.steps@.last() matches Preprocessor::MinMax(s) && !s.fitted
                && s.mins@.len() == 0 && s.maxs@.len() == 0 && s.feature_range == (crate::number::small::<V>(0), crate::number::small::<V>(1)),
    {
        self.with_preprocessor(Preprocessor::MinMax(MinMaxScaler::new()))
    }

    /// Adds a scaler by median and quartiles.
    pub fn with_robust_scaler(self) -> (r: Self)
        ensures
            appends(self.steps@, r.steps@),
            r.steps@.last() matches Preprocessor::Robust(s) && !s.fitted && s.wf(),
    {
        self.with_preprocessor(Preprocessor::Robust(RobustScaler::new()))
    }

    /// Adds an imputer that fills in the mean.
    pub fn with_mean_imputer(self) -> (r: Self)
        ensures
            appends(self.steps@, r.steps@),
            r.steps@.last() matches Preprocessor::Imputer(i) && !i.fitted && i.strategy
                == ImputeStrategy::<V>::Mean,
    {
        self.with_preprocessor(Preprocessor::Imputer(SimpleImputer::mean()))
    }

    /// Adds an imputer that fills in the median.
    pub fn with_median_imputer(self) -> (r: Self)
        ensures
            appends(self.steps@, r.steps@),
            r.steps@.last() matches Preprocessor::Imputer(i) && !i.fitted && i.strategy
                == ImputeStrategy::<V>::Median,
    {
        self.with_preprocessor(Preprocessor::Imputer(SimpleImputer::median()))
    }

    /// Adds an imputer.
    pub fn with_imputer(self, imputer: SimpleImputer<V>) -> (r: Self)
        ensures
            r.steps@ == self.steps@.push(Preprocessor::Imputer(imputer)),
    {
        self.with_preprocessor(Preprocessor::Imputer(imputer))
    }

    /// Adds a transform that brings columns closer to a normal distribution.
    pub fn with_yeo_johnson(self) -> (r: Self)
        requires
            crate::number::arithmetic::<V>(),
        ensures
            appends(self.steps@, r.steps@),
            r.steps@.last() matches Preprocessor::YeoJohnson(t) && !t.fitted && t.max_iter == 100
                && t.tolerance == crate::number::tenth_to::<V>(6),
    {
        self.with_preprocessor(Preprocessor::YeoJohnson(YeoJohnsonTransform::new()))
    }

    /// Adds anything that can be made into a preprocessor.
    pub fn with_scaler<T>(self, scaler: T) -> (r: Self) where Preprocessor<V, C>: From<T>
        ensures
            appends(self.steps@, r.steps@),
            call_ensures(
                <Preprocessor<V, C> as From<T>>::from,
                (scaler,),
                r.steps@.last(),
            ),
    {
        self.with_preprocessor(Preprocessor::from(scaler))
    }

    /// Adds a preprocessor.
    pub fn with_preprocessor(self, preprocessor: Preprocessor<V, C>) -> (r: Self)
        ensures
            r.steps@ == self.steps@.push(preprocessor),
            appends(self.steps@, r.steps@),
            r.steps@.last() == preprocessor,
    {
        let mut builder = self;
        builder.steps.push(preprocessor);
        builder
    }

    /// Adds a preprocessor of the user's.
    pub fn with_custom(self, preprocessor: C) -> (r: Result<Self>)
        ensures
            exists|id: &'static str, bytes: Result<Vec<u8>>|
                {
                    &&& #[trigger] call_ensures(
                        <C as PreprocessorTrait<V>>::type_id,
                        (&preprocessor,),
                        id,
                    )
                    &&& #[trigger] call_ensures(
                        <C as PreprocessorTrait<V>>::serialize_state,
                        (&preprocessor,),
                        bytes,
                    )
                    &&& match r {
                        Ok(builder) => appends(self.steps@, builder.steps@) && wraps(
                            preprocessor,
                            id@,
                            bytes,
                            Ok(builder.steps@.last()),
                        ),
                        Err(e) => bytes == Err::<Vec<u8>, TreeBoostError>(e),
                    }
                },
    {
        match Preprocessor::custom(preprocessor) {
            Ok(step) => Ok(self.with_preprocessor(step)),
            Err(e) => Err(e),
        }
    }

    /// The preprocessor itself, if there is only one, and else the chain.
    pub fn build(self) -> (r: Preprocessor<V, C>)
        ensures
            if self.steps@.len() == 1 {
                r == self.steps@[0]
            } else {
                r matches Preprocessor::Pipeline(steps) && steps@ == self.steps@
            },
    {
        let mut steps = self.steps;
        if steps.len() == 1 {
            steps.remove(0)
        } else {
            Preprocessor::Pipeline(Box::new(steps))
        }
    }
}

/// One list is the other with an item added at the end.
pub open spec fn appends<A>(before: Seq<A>, after: Seq<A>) -> bool {
    after.len() == before.len() + 1 && after.drop_last() =~= before
}

impl<V: Number, C: PreprocessorTrait<V>> Default for PipelineBuilder<V, C> {
    fn default() -> (r: Self)
        ensures
            r.steps@.len() == 0,
    {
        PipelineBuilder::new()
    }
}

impl<V, C> From<StandardScaler<V>> for Preprocessor<V, C> {
    fn from(scaler: StandardScaler<V>) -> (r: Self) {
        Preprocessor::Standard(scaler)
    }
}

impl<V, C> vstd::std_specs::convert::FromSpecImpl<StandardScaler<V>> for Preprocessor<V, C> {
    open spec fn obeys_from_spec() -> bool {
        true
    }

    open spec fn from_spec(scaler: StandardScaler<V>) -> Self {
        Preprocessor::Standard(scaler)
    }
}

impl<V, C> From<MinMaxScaler<V>> for Preprocessor<V, C> {
    fn from(scaler: MinMaxScaler<V>) -> (r: Self) {
        Preprocessor::MinMax(scaler)
    }
}

impl<V, C> vstd::std_specs::convert::FromSpecImpl<MinMaxScaler<V>> for Preprocessor<V, C> {
    open spec fn obeys_from_spec() -> bool {
        true
    }

    open spec fn from_spec(scaler: MinMaxScaler<V>) -> Self {
        Preprocessor::MinMax(scaler)
    }
}

impl<V, C> From<RobustScaler<V>> for Preprocessor<V, C> {
    fn from(scaler: RobustScaler<V>) -> (r: Self) {
        Preprocessor::Robust(scaler)
    }
}

impl<V, C> vstd::std_specs::convert::FromSpecImpl<RobustScaler<V>> for Preprocessor<V, C> {
    open spec fn obeys_from_spec() -> bool {
        true
    }

    open spec fn from_spec(scaler: RobustScaler<V>) -> Self {
        Preprocessor::Robust(scaler)
    }
}

impl<V, C> From<FrequencyEncoder<V>> for Preprocessor<V, C> {
    fn from(encoder: FrequencyEncoder<V>) -> (r: Self) {
        Preprocessor::Frequency(encoder)
    }
}

impl<V, C> vstd::std_specs::convert::FromSpecImpl<FrequencyEncoder<V>> for Preprocessor<V, C> {
    open spec fn obeys_from_spec() -> bool {
        true
    }

    open spec fn from_spec(encoder: FrequencyEncoder<V>) -> Self {
        Preprocessor::Frequency(encoder)
    }
}

impl<V, C> From<LabelEncoder> for Preprocessor<V, C> {
    fn from(encoder: LabelEncoder) -> (r: Self) {
        Preprocessor::Label(encoder)
    }
}

impl<V, C> vstd::std_specs::convert::FromSpecImpl<LabelEncoder> for Preprocessor<V, C> {
    open spec fn obeys_from_spec() -> bool {
        true
    }

    open spec fn from_spec(encoder: LabelEncoder) -> Self {
        Preprocessor::Label(encoder)
    }
}

impl<V, C> From<OneHotEncoder> for Preprocessor<V, C> {
    fn from(encoder: OneHotEncoder) -> (r: Self) {
        Preprocessor::OneHot(encoder)
    }
}

impl<V, C> vstd::std_specs::convert::FromSpecImpl<OneHotEncoder> for Preprocessor<V, C> {
    open spec fn obeys_from_spec() -> bool {
        true
    }

    open spec fn from_spec(encoder: OneHotEncoder) -> Self {
        Preprocessor::OneHot(encoder)
    }
}

impl<V, C> From<SimpleImputer<V>> for Preprocessor<V, C> {
    fn from(imputer: SimpleImputer<V>) -> (r: Self) {
        Preprocessor::Imputer(imputer)
    }
}

impl<V, C> vstd::std_specs::convert::FromSpecImpl<SimpleImputer<V>> for Preprocessor<V, C> {
    open spec fn obeys_from_spec() -> bool {
        true
    }

    open spec fn from_spec(imputer: SimpleImputer<V>) -> Self {
        Preprocessor::Imputer(imputer)
    }
}

impl<V, C> From<YeoJohnsonTransform<V>> for Preprocessor<V, C> {
    fn from(transform: YeoJohnsonTransform<V>) -> (r: Self) {
        Preprocessor::YeoJohnson(transform)
    }
}

impl<V, C> vstd::std_specs::convert::FromSpecImpl<YeoJohnsonTransform<V>> for Preprocessor<V, C> {
    open spec fn obeys_from_spec() -> bool {
        true
    }

    open spec fn from_spec(transform: YeoJohnsonTransform<V>) -> Self {
        Preprocessor::YeoJohnson(transform)
    }
}

} // verus!
