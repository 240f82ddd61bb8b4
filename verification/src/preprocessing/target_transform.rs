//! Carrying bounded targets over to all numbers, and predictions back.

use crate::error::{Result, TreeBoostError};
use crate::functions::Functions;
use crate::number::{clamp, highest_number, lowest_number, small_fraction, Number};
use crate::text::join5;
use vstd::prelude::*;

verus! {

/// A transformation of targets before training, and of predictions back.
pub trait TargetTransform<V: Number> {
    /// The transformation can be carried out.
    spec fn usable(&self) -> bool;

    /// Between which numbers targets lie.
    spec fn limits(&self) -> (V, V);

    /// Transforms targets in place.
    fn transform<F: Functions<V>>(&self, targets: &mut [V], f: &F) -> (r: Result<()>)
        requires
            crate::number::arithmetic::<V>(),
            crate::functions::computes(f),
            self.usable(),
    ;

    /// Transforms predictions back in place.
    fn inverse_transform<F: Functions<V>>(&self, predictions: &mut [V], f: &F) -> (r: Result<()>)
        requires
            crate::number::arithmetic::<V>(),
            crate::functions::computes(f),
            self.usable(),
    ;

    /// Between which numbers targets lie.
    fn bounds(&self) -> (r: (V, V))
        requires
            crate::number::arithmetic::<V>(),
        ensures
            r == self.limits(),
    ;
}

/// Leaves everything as it is.
#[derive(Debug, Clone, Copy)]
pub struct IdentityTransform;

impl IdentityTransform {
    /// The transformation that leaves everything as it is.
    pub fn new() -> (r: Self)
        ensures
            r == IdentityTransform,
    {
        IdentityTransform
    }
}

impl Default for IdentityTransform {
    fn default() -> (r: Self)
        ensures
            r == IdentityTransform,
    {
        IdentityTransform::new()
    }
}

impl<V: Number> TargetTransform<V> for IdentityTransform {
    open spec fn usable(&self) -> bool {
        true
    }

    open spec fn limits(&self) -> (V, V) {
        (crate::number::lowest(), crate::number::highest())
    }

    fn transform<F: Functions<V>>(&self, targets: &mut [V], f: &F) -> (r: Result<()>)
        ensures
            r is Ok,
            final(targets)@ == old(targets)@,
    {
        Ok(())
    }

    fn inverse_transform<F: Functions<V>>(&self, predictions: &mut [V], f: &F) -> (r: Result<()>)
        ensures
            r is Ok,
            final(predictions)@ == old(predictions)@,
    {
        Ok(())
    }

    fn bounds(&self) -> (r: (V, V)) {
        (lowest_number(), highest_number())
    }
}

/// Carries numbers from `min` to `max` over to all numbers by the logit
/// function.
#[derive(Debug, Clone, Copy)]
pub struct LogitTransform<V> {
    /// The least target.
    pub min: V,
    /// The greatest target.
    pub max: V,
    /// How far scaled targets stay away from zero and one.
    pub epsilon: V,
}

/// The complaint about limits in the wrong order.
pub open spec fn bad_limits_text<V, F: Functions<V>>(
    f: &F,
    name: Seq<char>,
    min: V,
    max: V,
) -> Seq<char> {
    name + " requires min < max, got min="@ + crate::functions::shown(f, min) + ", max="@
        + crate::functions::shown(f, max)
}

/// The error that complains about limits in the wrong order.
fn bad_limits<V: Number, F: Functions<V>>(name: &str, min: V, max: V, f: &F) -> (r: TreeBoostError)
    requires
        crate::functions::computes(f),
    ensures
        r.is_config(bad_limits_text(f, name@, min, max)),
{
    let low = f.show(min);
    assert(crate::functions::may_be_shown(f, min, low@));
    let high = f.show(max);
    assert(crate::functions::may_be_shown(f, max, high@));
    TreeBoostError::Config(
        join5(name, " requires min < max, got min=", low.as_str(), ", max=", high.as_str()),
    )
}

/// A target within its limits, carried over to all numbers.
pub open spec fn logit_of<V: Number, F: Functions<V>>(f: &F, t: LogitTransform<V>, v: V) -> V {
    let one = crate::number::small::<V>(1);
    let scaled = crate::number::over(
        crate::number::minus(v, t.min),
        crate::number::minus(t.max, t.min),
    );
    let p = crate::number::clamped(scaled, t.epsilon, crate::number::minus(one, t.epsilon));
    crate::functions::ln_of(f, crate::number::over(p, crate::number::minus(one, p)))
}

/// A prediction carried back to the limits.
pub open spec fn sigmoid_of<V: Number, F: Functions<V>>(f: &F, t: LogitTransform<V>, v: V) -> V {
    let one = crate::number::small::<V>(1);
    let scaled = crate::number::over(
        one,
        crate::number::plus(one, crate::functions::exp_of(f, crate::number::negated(v))),
    );
    crate::number::plus(
        crate::number::times(scaled, crate::number::minus(t.max, t.min)),
        t.min,
    )
}

impl<V: Number> LogitTransform<V> {
    /// `v` lies outside the limits.
    pub open spec fn outside(&self, v: V) -> bool {
        crate::number::below(v, self.min) || crate::number::above(v, self.max)
    }

    /// The complaint about a target outside the limits.
    pub open spec fn outside_text<F: Functions<V>>(&self, f: &F, v: V) -> Seq<char> {
        "Target value "@ + crate::functions::shown(f, v) + " is outside bounds ["@
            + crate::functions::shown(f, self.min) + ", "@ + crate::functions::shown(f, self.max)
            + "]. LogitTransform requires all targets to be within the specified range."@
    }

    /// The transformation for targets from `min` to `max`.
    pub fn new<F: Functions<V>>(min: V, max: V, f: &F) -> (r: Result<Self>)
        requires
            crate::number::arithmetic::<V>(),
            crate::functions::computes(f),
        ensures
            match r {
                Ok(t) => {
                    &&& !crate::number::at_least(min, max)
                    &&& t == (LogitTransform {
                        min,
                        max,
                        epsilon: crate::number::tenth_to::<V>(7),
                    })
                },
                Err(e) => {
                    &&& crate::number::at_least(min, max)
                    &&& e.is_config(bad_limits_text(f, "LogitTransform"@, min, max))
                },
            },
    {
        if min >= max {
            return Err(bad_limits("LogitTransform", min, max, f));
        }
        Ok(LogitTransform { min, max, epsilon: small_fraction(7) })
    }

    /// Sets how far scaled targets stay away from zero and one.
    pub fn with_epsilon(self, epsilon: V) -> (r: Self)
        ensures
            r == (LogitTransform { epsilon, ..self }),
    {
        LogitTransform { epsilon, ..self }
    }

    /// The error that complains about a target outside the limits.
    fn outside_error<F: Functions<V>>(&self, v: V, f: &F) -> (r: TreeBoostError)
        requires
            crate::functions::computes(f),
        ensures
            r.is_data(self.outside_text(f, v)),
    {
        let value = f.show(v);
        assert(crate::functions::may_be_shown(f, v, value@));
        let low = f.show(self.min);
        assert(crate::functions::may_be_shown(f, self.min, low@));
        let high = f.show(self.max);
        assert(crate::functions::may_be_shown(f, self.max, high@));
        let mut text = join5(
            "Target value ",
            value.as_str(),
            " is outside bounds [",
            low.as_str(),
            ", ",
        );
        text.append(high.as_str());
        text.append("]. LogitTransform requires all targets to be within the specified range.");
        TreeBoostError::Data(text)
    }
}

/// Targets are transformed up to the first that lies outside the limits: `bad`
/// is its place, or the number of targets where none does.
pub open spec fn transforms_up_to<V: Number, F: Functions<V>>(
    f: &F,
    t: LogitTransform<V>,
    before: Seq<V>,
    after: Seq<V>,
    bad: int,
) -> bool {
    &&& after.len() == before.len()
    &&& 0 <= bad <= before.len()
    &&& forall|i: int| 0 <= i < bad ==> !t.outside(#[trigger] before[i])
    &&& bad < before.len() ==> t.outside(before[bad])
    &&& forall|i: int|
        0 <= i < before.len() ==> #[trigger] after[i] == (if i < bad {
            logit_of(f, t, before[i])
        } else {
            before[i]
        })
}

impl<V: Number> TargetTransform<V> for LogitTransform<V> {
    open spec fn usable(&self) -> bool {
        crate::number::at_most(
            self.epsilon,
            crate::number::minus(crate::number::small::<V>(1), self.epsilon),
        )
    }

    open spec fn limits(&self) -> (V, V) {
        (self.min, self.max)
    }

    fn transform<F: Functions<V>>(&self, targets: &mut [V], f: &F) -> (r: Result<()>)
        ensures
            match r {
                Ok(_) => transforms_up_to(
                    f,
                    *self,
                    old(targets)@,
                    final(targets)@,
                    old(targets)@.len() as int,
                ),
                Err(e) => exists|bad: int|
                    {
                        &&& 0 <= bad < old(targets)@.len()
                        &&& #[trigger] transforms_up_to(
                            f,
                            *self,
                            old(targets)@,
                            final(targets)@,
                            bad,
                        )
                        &&& e.is_data(self.outside_text(f, old(targets)@[bad]))
                    },
            },
    {
        let ghost before = targets@;
        let one: V = V::from(1u8);
        let range: V = self.max - self.min;
        let mut i: usize = 0;
        while i < targets.len()
            invariant
                crate::number::arithmetic::<V>(),
                crate::functions::computes(f),
                one == crate::number::small::<V>(1),
                range == crate::number::minus(self.max, self.min),
                before == old(targets)@,
                targets.len() == before.len(),
                i <= targets.len(),
                forall|k: int| 0 <= k < i ==> !self.outside(#[trigger] before[k]),
                forall|k: int|
                    0 <= k < before.len() ==> #[trigger] targets[k] == (if k < i {
                        logit_of(f, *self, before[k])
                    } else {
                        before[k]
                    }),
            decreases targets.len() - i,
        {
            let target: V = targets[i];
            if target < self.min || target > self.max {
                let e = self.outside_error(target, f);
                proof {
                    let bad = i as int;
                    assert(target == before[bad]);
                    assert(transforms_up_to(f, *self, before, targets@, bad));
                    assert(e.is_data(self.outside_text(f, before[bad])));
                }
                return Err(e);
            }
            let scaled: V = (target - self.min) / range;
            let p: V = clamp(scaled, self.epsilon, one - self.epsilon);
            targets[i] = f.ln(p / (one - p));
            i = i + 1;
        }
        Ok(())
    }

    fn inverse_transform<F: Functions<V>>(&self, predictions: &mut [V], f: &F) -> (r: Result<()>)
        ensures
            r is Ok,
            final(predictions)@.len() == old(predictions)@.len(),
            forall|i: int|
                0 <= i < old(predictions)@.len() ==> #[trigger] final(predictions)@[i]
                    == sigmoid_of(f, *self, old(predictions)@[i]),
    {
        let ghost before = predictions@;
        let one: V = V::from(1u8);
        let range: V = self.max - self.min;
        let mut i: usize = 0;
        while i < predictions.len()
            invariant
                crate::number::arithmetic::<V>(),
                crate::functions::computes(f),
                one == crate::number::small::<V>(1),
                range == crate::number::minus(self.max, self.min),
                predictions.len() == before.len(),
                i <= predictions.len(),
                forall|k: int|
                    0 <= k < before.len() ==> #[trigger] predictions[k] == (if k < i {
                        sigmoid_of(f, *self, before[k])
                    } else {
                        before[k]
                    }),
            decreases predictions.len() - i,
        {
            let v: V = predictions[i];
            let scaled: V = one / (one + f.exp(v.neg()));
            predictions[i] = scaled * range + self.min;
            i = i + 1;
        }
        Ok(())
    }

    fn bounds(&self) -> (r: (V, V)) {
        (self.min, self.max)
    }
}

/// Limits that predictions are cut off at.
#[derive(Debug, Clone, Copy)]
pub struct ClampParams<V> {
    /// The least prediction.
    pub min: V,
    /// The greatest prediction.
    pub max: V,
}

/// The settings of a [`LogitTransform`].
#[derive(Debug, Clone, Copy)]
pub struct LogitTransformParams<V> {
    /// The least target.
    pub min: V,
    /// The greatest target.
    pub max: V,
    /// How far scaled targets stay away from zero and one.
    pub epsilon: V,
}

/// One of the transformations.
#[derive(Debug, Clone, Copy)]
pub enum TargetTransformKind<V> {
    /// Leaves everything as it is.
    Identity,
    /// Carries targets over to all numbers by the logit function.
    Logit(LogitTransformParams<V>),
    /// Leaves targets as they are, and cuts predictions off at limits.
    Clamp(ClampParams<V>),
}

impl<V: Number> TargetTransformKind<V> {
    /// The transformation that leaves everything as it is.
    pub fn identity() -> (r: Self)
        ensures
            r == TargetTransformKind::<V>::Identity,
    {
        TargetTransformKind::Identity
    }

    /// The logit transformation for targets from `min` to `max`.
    pub fn logit<F: Functions<V>>(min: V, max: V, f: &F) -> (r: Result<Self>)
        requires
            crate::number::arithmetic::<V>(),
            crate::functions::computes(f),
        ensures
            match r {
                Ok(t) => {
                    &&& !crate::number::at_least(min, max)
                    &&& t == TargetTransformKind::Logit(
                        LogitTransformParams {
                            min,
                            max,
                            epsilon: crate::number::tenth_to::<V>(7),
                        },
                    )
                },
                Err(e) => {
                    &&& crate::number::at_least(min, max)
                    &&& e.is_config(bad_limits_text(f, "LogitTransform"@, min, max))
                },
            },
    {
        Self::logit_with_epsilon(min, max, small_fraction(7), f)
    }

    /// The logit transformation with scaled targets so far away from zero and
    /// one.
    pub fn logit_with_epsilon<F: Functions<V>>(min: V, max: V, epsilon: V, f: &F) -> (r: Result<
        Self,
    >)
        requires
            crate::number::arithmetic::<V>(),
            crate::functions::computes(f),
        ensures
            match r {
                Ok(t) => {
                    &&& !crate::number::at_least(min, max)
                    &&& t == TargetTransformKind::Logit(
                        LogitTransformParams { min, max, epsilon },
                    )
                },
                Err(e) => {
                    &&& crate::number::at_least(min, max)
                    &&& e.is_config(bad_limits_text(f, "LogitTransform"@, min, max))
                },
            },
    {
        if min >= max {
            return Err(bad_limits("LogitTransform", min, max, f));
        }
        Ok(TargetTransformKind::Logit(LogitTransformParams { min, max, epsilon }))
    }

    /// The transformation that cuts predictions off at `min` and `max`.
    pub fn clamp<F: Functions<V>>(min: V, max: V, f: &F) -> (r: Result<Self>)
        requires
            crate::number::arithmetic::<V>(),
            crate::functions::computes(f),
        ensures
            match r {
                Ok(t) => {
                    &&& !crate::number::at_least(min, max)
                    &&& t == TargetTransformKind::Clamp(ClampParams { min, max })
                },
                Err(e) => {
                    &&& crate::number::at_least(min, max)
                    &&& e.is_config(bad_limits_text(f, "ClampTransform"@, min, max))
                },
            },
    {
        if min >= max {
            return Err(bad_limits("ClampTransform", min, max, f));
        }
        Ok(TargetTransformKind::Clamp(ClampParams { min, max }))
    }
}

/// The transformation with the given settings.
pub open spec fn logit_with<V>(p: LogitTransformParams<V>) -> LogitTransform<V> {
    LogitTransform { min: p.min, max: p.max, epsilon: p.epsilon }
}

impl<V: Number> TargetTransform<V> for TargetTransformKind<V> {
    open spec fn usable(&self) -> bool {
        match self {
            TargetTransformKind::Identity => true,
            TargetTransformKind::Logit(p) => logit_with(*p).usable(),
            TargetTransformKind::Clamp(p) => crate::number::at_most(p.min, p.max),
        }
    }

    open spec fn limits(&self) -> (V, V) {
        match self {
            TargetTransformKind::Identity => (crate::number::lowest(), crate::number::highest()),
            TargetTransformKind::Logit(p) => (p.min, p.max),
            TargetTransformKind::Clamp(p) => (p.min, p.max),
        }
    }

    fn transform<F: Functions<V>>(&self, targets: &mut [V], f: &F) -> (r: Result<()>)
        ensures
            match self {
                TargetTransformKind::Logit(p) => match r {
                    Ok(_) => transforms_up_to(
                        f,
                        logit_with(*p),
                        old(targets)@,
                        final(targets)@,
                        old(targets)@.len() as int,
                    ),
                    Err(e) => exists|bad: int|
                        {
                            &&& 0 <= bad < old(targets)@.len()
                            &&& #[trigger] transforms_up_to(
                                f,
                                logit_with(*p),
                                old(targets)@,
                                final(targets)@,
                                bad,
                            )
                            &&& e.is_data(logit_with(*p).outside_text(f, old(targets)@[bad]))
                        },
                },
                _ => r is Ok && final(targets)@ == old(targets)@,
            },
    {
        match self {
            TargetTransformKind::Identity => Ok(()),
            TargetTransformKind::Logit(p) => {
                let t = LogitTransform { min: p.min, max: p.max, epsilon: p.epsilon };
                t.transform(targets, f)
            },
            TargetTransformKind::Clamp(_) => Ok(()),
        }
    }

    fn inverse_transform<F: Functions<V>>(&self, predictions: &mut [V], f: &F) -> (r: Result<()>)
        ensures
            r is Ok,
            final(predictions)@.len() == old(predictions)@.len(),
            forall|i: int|
                0 <= i < old(predictions)@.len() ==> #[trigger] final(predictions)@[i] == (
                match self {
                    TargetTransformKind::Identity => old(predictions)@[i],
                    TargetTransformKind::Logit(p) => sigmoid_of(
                        f,
                        logit_with(*p),
                        old(predictions)@[i],
                    ),
                    TargetTransformKind::Clamp(p) => crate::number::clamped(
                        old(predictions)@[i],
                        p.min,
                        p.max,
                    ),
                }),
    {
        match self {
            TargetTransformKind::Identity => Ok(()),
            TargetTransformKind::Logit(p) => {
                let t = LogitTransform { min: p.min, max: p.max, epsilon: p.epsilon };
                t.inverse_transform(predictions, f)
            },
            TargetTransformKind::Clamp(p) => {
                let ghost before = predictions@;
                let mut i: usize = 0;
                while i < predictions.len()
                    invariant
                        crate::number::arithmetic::<V>(),
                        predictions.len() == before.len(),
                        i <= predictions.len(),
                        forall|k: int|
                            0 <= k < before.len() ==> #[trigger] predictions[k] == (if k < i {
                                crate::number::clamped(before[k], p.min, p.max)
                            } else {
                                before[k]
                            }),
                    decreases predictions.len() - i,
                {
                    let v: V = predictions[i];
                    predictions[i] = clamp(v, p.min, p.max);
                    i = i + 1;
                }
                Ok(())
            },
        }
    }

    fn bounds(&self) -> (r: (V, V)) {
        match self {
            TargetTransformKind::Identity => (lowest_number(), highest_number()),
            TargetTransformKind::Logit(p) => (p.min, p.max),
            TargetTransformKind::Clamp(p) => (p.min, p.max),
        }
    }
}

/// Predictions are carried back to within the limits, and the greater lies the
/// nearer to the upper one: its odds there are its exponential.
pub proof fn law_predictions_lie_within<V: Number, F: Functions<V>>(
    worth: spec_fn(V) -> real,
    f: &F,
    t: LogitTransform<V>,
    v: V,
)
    requires
        crate::exact::exact(worth),
        crate::exact::distinct::<V>(),
        crate::exact::powers(f, worth),
        worth(t.min) < worth(t.max),
    ensures
        worth(t.min) < worth(sigmoid_of(f, t, v)),
        worth(sigmoid_of(f, t, v)) < worth(t.max),
        worth(sigmoid_of(f, t, v)) - worth(t.min) == (worth(t.max) - worth(sigmoid_of(f, t, v)))
            * worth(crate::functions::exp_of(f, v)),
{
    let other = crate::number::negated(v);
    crate::exact::lemma_exp_inverse(f, worth, v, other);
    let e = worth(crate::functions::exp_of(f, v));
    let g = worth(crate::functions::exp_of(f, other));
    crate::exact::lemma_quotient(1real, 1real + g);
    let s = 1real / (1real + g);
    let width = worth(t.max) - worth(t.min);
    let r = worth(sigmoid_of(f, t, v));
    assert(r - worth(t.min) == s * width);
    assert(s * (1real + g) == s + s * g) by (nonlinear_arith);
    assert(s > 0real) by (nonlinear_arith)
        requires
            s * (1real + g) == 1real,
            g > 0real,
    ;
    let u = s * g;
    assert(u > 0real) by (nonlinear_arith)
        requires
            u == s * g,
            s > 0real,
            g > 0real,
    ;
    assert((s + u) * width == s * width + u * width) by (nonlinear_arith);
    assert(1real * width == width) by (nonlinear_arith);
    assert(worth(t.max) - r == u * width);
    assert(s * width > 0real) by (nonlinear_arith)
        requires
            s > 0real,
            width > 0real,
    ;
    assert(u * width > 0real) by (nonlinear_arith)
        requires
            u > 0real,
            width > 0real,
    ;
    assert(((s * g) * width) * e == (s * width) * (e * g)) by (nonlinear_arith);
    assert((s * width) * 1real == s * width) by (nonlinear_arith);
}

/// A target that lies within its limits, and not nearer to them than the margin,
/// comes back as it was.
pub proof fn law_targets_come_back<V: Number, F: Functions<V>>(
    worth: spec_fn(V) -> real,
    f: &F,
    t: LogitTransform<V>,
    v: V,
)
    requires
        crate::exact::exact(worth),
        crate::exact::distinct::<V>(),
        crate::exact::powers(f, worth),
        worth(t.min) < worth(t.max),
        worth(t.epsilon) > 0real,
        worth(v) - worth(t.min) >= worth(t.epsilon) * (worth(t.max) - worth(t.min)),
        worth(t.max) - worth(v) >= worth(t.epsilon) * (worth(t.max) - worth(t.min)),
    ensures
        worth(sigmoid_of(f, t, logit_of(f, t, v))) == worth(v),
{
    let one = crate::number::small::<V>(1);
    let width = worth(t.max) - worth(t.min);
    let a = worth(v) - worth(t.min);
    let e = worth(t.epsilon);
    crate::exact::lemma_quotient(a, width);
    let p = a / width;
    assert(p * width == a);
    assert(p >= e) by (nonlinear_arith)
        requires
            p * width == a,
            a >= e * width,
            width > 0real,
    ;
    let u = 1real - p;
    assert(u * width == width - p * width) by (nonlinear_arith)
        requires
            u == 1real - p,
    ;
    assert(u >= e) by (nonlinear_arith)
        requires
            u * width >= e * width,
            width > 0real,
    ;
    let scaled = crate::number::over(
        crate::number::minus(v, t.min),
        crate::number::minus(t.max, t.min),
    );
    assert(worth(scaled) == p);
    let kept = crate::number::clamped(scaled, t.epsilon, crate::number::minus(one, t.epsilon));
    assert(worth(kept) == p);
    let odds = crate::number::over(kept, crate::number::minus(one, kept));
    crate::exact::lemma_quotient(p, u);
    let o = worth(odds);
    assert(o * u == p);
    assert(o > 0real) by (nonlinear_arith)
        requires
            o * u == p,
            p > 0real,
            u > 0real,
    ;
    let carried = logit_of(f, t, v);
    assert(worth(crate::functions::exp_of(f, carried)) == o);
    law_predictions_lie_within(worth, f, t, carried);
    let r = worth(sigmoid_of(f, t, carried)) - worth(t.min);
    assert(r == (width - r) * o);
    assert((width - r) * o == width * o - r * o) by (nonlinear_arith);
    assert((o * u) * width == (width * o) * u) by (nonlinear_arith);
    assert((1real + o) * r == r + r * o) by (nonlinear_arith);
    assert((1real + o) * a == a + a * o) by (nonlinear_arith);
    assert(p * width == (o * u) * width);
    assert((p * width) * o == (width * o) * p) by (nonlinear_arith);
    assert((width * o) * p + (width * o) * u == (width * o) * (p + u)) by (nonlinear_arith);
    assert((width * o) * 1real == width * o) by (nonlinear_arith);
    crate::exact::lemma_cancel(r, a, 1real + o);
}

} // verus!
