//! How well predictions fit.

use crate::functions::Functions;
use crate::number::{
    clamp, greater, highest_number, lowest_number, magnitude, ratio_number, small_fraction, sum,
    Number,
};
use crate::text::same_text;
use vstd::prelude::*;

verus! {

/// A measure of how well predictions fit.
#[derive(Debug, Clone, Copy)]
pub enum Metric<V> {
    /// The mean of the squared errors.
    Mse,
    /// The root of the mean of the squared errors.
    Rmse,
    /// The mean of the errors without their signs.
    Mae,
    /// The cross entropy of two classes.
    BinaryLogLoss,
    /// The cross entropy of several classes.
    MultiClassLogLoss {
        /// The number of classes.
        n_classes: usize,
    },
    /// The share of the samples whose class is predicted.
    Accuracy {
        /// From which probability on the class is predicted.
        threshold: V,
    },
}

/// The logistic function, written so that the exponential does not overflow.
pub open spec fn sigmoid_of<V: Number, F: Functions<V>>(f: &F, x: V) -> V {
    let one = crate::number::small::<V>(1);
    if crate::number::at_least(x, crate::number::small(0)) {
        crate::number::over(
            one,
            crate::number::plus(
                one,
                crate::functions::exp_of(f, crate::number::negated(x)),
            ),
        )
    } else {
        crate::number::over(
            crate::functions::exp_of(f, x),
            crate::number::plus(one, crate::functions::exp_of(f, x)),
        )
    }
}

/// Computes [`sigmoid_of`].
pub fn sigmoid<V: Number, F: Functions<V>>(x: V, f: &F) -> (r: V)
    requires
        crate::number::arithmetic::<V>(),
        crate::functions::computes(f),
    ensures
        r == sigmoid_of(f, x),
{
    let zero: V = V::from(0u8);
    let one: V = V::from(1u8);
    if x >= zero {
        let e: V = f.exp(x.neg());
        one / (one + e)
    } else {
        let e: V = f.exp(x);
        e / (one + e)
    }
}

/// The squared errors.
pub open spec fn square_errors<V: Number, F: Functions<V>>(
    f: &F,
    predictions: Seq<V>,
    targets: Seq<V>,
) -> Seq<V> {
    Seq::new(
        predictions.len(),
        |i: int|
            crate::functions::powi_of(f, crate::number::minus(predictions[i], targets[i]), 2),
    )
}

/// The errors without their signs.
pub open spec fn absolute_errors<V: Number>(predictions: Seq<V>, targets: Seq<V>) -> Seq<V> {
    Seq::new(
        predictions.len(),
        |i: int| crate::number::absolute(crate::number::minus(predictions[i], targets[i])),
    )
}

/// The mean of a list.
pub open spec fn mean<V: Number, F: Functions<V>>(f: &F, list: Seq<V>) -> V {
    crate::number::over(
        crate::number::total(list),
        crate::functions::count_of::<V, F>(f, list.len() as usize),
    )
}

/// The probability that a prediction stands for, kept away from zero and one.
pub open spec fn kept_probability<V: Number, F: Functions<V>>(f: &F, prediction: V) -> V {
    crate::number::clamped(
        sigmoid_of(f, prediction),
        crate::number::tenth_to(7),
        crate::number::minus(crate::number::small(1), crate::number::tenth_to(7)),
    )
}

/// The cross entropy of one sample of two classes.
pub open spec fn entropy_term<V: Number, F: Functions<V>>(f: &F, prediction: V, target: V) -> V {
    let p = kept_probability(f, prediction);
    let one = crate::number::small::<V>(1);
    crate::number::negated(
        crate::number::plus(
            crate::number::times(target, crate::functions::ln_of(f, p)),
            crate::number::times(
                crate::number::minus(one, target),
                crate::functions::ln_of(f, crate::number::minus(one, p)),
            ),
        ),
    )
}

/// The cross entropies of the samples of two classes.
pub open spec fn entropy_terms<V: Number, F: Functions<V>>(
    f: &F,
    predictions: Seq<V>,
    targets: Seq<V>,
) -> Seq<V> {
    Seq::new(predictions.len(), |i: int| entropy_term(f, predictions[i], targets[i]))
}

/// The greatest of a list and minus infinity.
pub open spec fn top_of<V: Number>(list: Seq<V>) -> V
    decreases list.len(),
{
    if list.len() == 0 {
        crate::number::lowest()
    } else {
        crate::number::greater_of(top_of(list.drop_last()), list.last())
    }
}

/// The exponentials of a list, after the greatest has been taken off.
pub open spec fn relative_exponentials<V: Number, F: Functions<V>>(f: &F, list: Seq<V>) -> Seq<V> {
    Seq::new(
        list.len(),
        |i: int| crate::functions::exp_of(f, crate::number::minus(list[i], top_of(list))),
    )
}

/// The logarithm of the probability of a class, where `logits` are the
/// predictions of a sample.
pub open spec fn log_probability<V: Number, F: Functions<V>>(
    f: &F,
    logits: Seq<V>,
    class_index: int,
) -> V {
    crate::number::greater_of(
        crate::number::minus(
            crate::number::minus(logits[class_index], top_of(logits)),
            crate::functions::ln_of(
                f,
                crate::number::total(relative_exponentials(f, logits)),
            ),
        ),
        crate::functions::ln_of(f, crate::number::tenth_to(7)),
    )
}

/// The predictions of sample `i`.
pub open spec fn logits_of<V>(predictions: Seq<V>, n_classes: nat, i: int) -> Seq<V> {
    predictions.subrange(i * n_classes, i * n_classes + n_classes)
}

/// What is left of zero after the logarithms of the probabilities of the first
/// `n` samples have been taken off.
pub open spec fn log_loss_sum<V: Number, F: Functions<V>>(
    f: &F,
    predictions: Seq<V>,
    targets: Seq<V>,
    n_classes: nat,
    n: nat,
) -> V
    decreases n,
{
    if n == 0 {
        crate::number::small(0)
    } else {
        crate::number::minus(
            log_loss_sum(f, predictions, targets, n_classes, (n - 1) as nat),
            log_probability(
                f,
                logits_of(predictions, n_classes, n - 1),
                crate::functions::whole_of(f, targets[n - 1]) as int,
            ),
        )
    }
}

/// Every target is the number of a class.
pub open spec fn classes_known<V: Number, F: Functions<V>>(
    f: &F,
    targets: Seq<V>,
    n_classes: nat,
) -> bool {
    forall|i: int|
        0 <= i < targets.len() ==> crate::functions::whole_of(f, #[trigger] targets[i]) < n_classes
}

/// The cross entropy of several classes.
pub open spec fn multi_class_loss<V: Number, F: Functions<V>>(
    f: &F,
    predictions: Seq<V>,
    targets: Seq<V>,
    n_classes: nat,
) -> V {
    if n_classes < 2 || !classes_known(f, targets, n_classes) {
        crate::number::highest()
    } else {
        crate::number::over(
            log_loss_sum(f, predictions, targets, n_classes, targets.len()),
            crate::functions::count_of::<V, F>(f, targets.len() as usize),
        )
    }
}

/// The class of a sample is predicted.
pub open spec fn class_is_hit<V: Number, F: Functions<V>>(
    f: &F,
    prediction: V,
    target: V,
    threshold: V,
) -> bool {
    let class = if crate::number::at_least(sigmoid_of(f, prediction), threshold) {
        crate::number::small::<V>(1)
    } else {
        crate::number::small::<V>(0)
    };
    crate::number::below(
        crate::number::absolute(crate::number::minus(class, target)),
        crate::number::ratio(1, 2),
    )
}

/// Of how many of the first `n` samples the class is predicted.
pub open spec fn hits<V: Number, F: Functions<V>>(
    f: &F,
    predictions: Seq<V>,
    targets: Seq<V>,
    threshold: V,
    n: nat,
) -> nat
    decreases n,
{
    if n == 0 {
        0
    } else {
        hits(f, predictions, targets, threshold, (n - 1) as nat) + (if class_is_hit(
            f,
            predictions[n - 1],
            targets[n - 1],
            threshold,
        ) {
            1nat
        } else {
            0nat
        })
    }
}

/// Computes the squared errors.
fn list_square_errors<V: Number, F: Functions<V>>(
    predictions: &[V],
    targets: &[V],
    f: &F,
) -> (r: Vec<V>)
    requires
        crate::number::arithmetic::<V>(),
        crate::functions::computes(f),
        predictions@.len() == targets@.len(),
    ensures
        r@ == square_errors(f, predictions@, targets@),
{
    let mut list: Vec<V> = Vec::new();
    let mut i: usize = 0;
    while i < predictions.len()
        invariant
            crate::number::arithmetic::<V>(),
            crate::functions::computes(f),
            predictions@.len() == targets@.len(),
            i <= predictions.len(),
            list@.len() == i,
            forall|k: int|
                0 <= k < i ==> #[trigger] list@[k] == crate::functions::powi_of(
                    f,
                    crate::number::minus(predictions@[k], targets@[k]),
                    2,
                ),
        decreases predictions.len() - i,
    {
        list.push(f.powi(predictions[i] - targets[i], 2));
        i = i + 1;
    }
    assert(list@ =~= square_errors(f, predictions@, targets@));
    list
}

/// Computes the mean of a list.
fn mean_number<V: Number, F: Functions<V>>(list: &[V], f: &F) -> (r: V)
    requires
        crate::number::arithmetic::<V>(),
        crate::functions::computes(f),
    ensures
        r == mean(f, list@),
{
    let n: V = f.count(list.len());
    sum(list) / n
}

/// The mean of the squared errors.
fn compute_mse<V: Number, F: Functions<V>>(predictions: &[V], targets: &[V], f: &F) -> (r: V)
    requires
        crate::number::arithmetic::<V>(),
        crate::functions::computes(f),
        predictions@.len() == targets@.len(),
    ensures
        r == mean(f, square_errors(f, predictions@, targets@)),
{
    let list = list_square_errors(predictions, targets, f);
    mean_number(list.as_slice(), f)
}

/// The mean of the errors without their signs.
fn compute_mae<V: Number, F: Functions<V>>(predictions: &[V], targets: &[V], f: &F) -> (r: V)
    requires
        crate::number::arithmetic::<V>(),
        crate::functions::computes(f),
        predictions@.len() == targets@.len(),
    ensures
        r == mean(f, absolute_errors(predictions@, targets@)),
{
    let mut list: Vec<V> = Vec::new();
    let mut i: usize = 0;
    while i < predictions.len()
        invariant
            crate::number::arithmetic::<V>(),
            predictions@.len() == targets@.len(),
            i <= predictions.len(),
            list@.len() == i,
            forall|k: int|
                0 <= k < i ==> #[trigger] list@[k] == crate::number::absolute(
                    crate::number::minus(predictions@[k], targets@[k]),
                ),
        decreases predictions.len() - i,
    {
        list.push(magnitude(predictions[i] - targets[i]));
        i = i + 1;
    }
    assert(list@ =~= absolute_errors(predictions@, targets@));
    mean_number(list.as_slice(), f)
}

/// The cross entropy of two classes.
fn compute_binary_log_loss<V: Number, F: Functions<V>>(
    predictions: &[V],
    targets: &[V],
    f: &F,
) -> (r: V)
    requires
        crate::number::arithmetic::<V>(),
        crate::functions::computes(f),
        predictions@.len() == targets@.len(),
    ensures
        r == mean(f, entropy_terms(f, predictions@, targets@)),
{
    let one: V = V::from(1u8);
    let epsilon: V = small_fraction(7);
    let mut list: Vec<V> = Vec::new();
    let mut i: usize = 0;
    while i < predictions.len()
        invariant
            crate::number::arithmetic::<V>(),
            crate::functions::computes(f),
            one == crate::number::small::<V>(1),
            epsilon == crate::number::tenth_to::<V>(7),
            predictions@.len() == targets@.len(),
            i <= predictions.len(),
            list@.len() == i,
            forall|k: int|
                0 <= k < i ==> #[trigger] list@[k] == entropy_term(
                    f,
                    predictions@[k],
                    targets@[k],
                ),
        decreases predictions.len() - i,
    {
        let target: V = targets[i];
        let prob: V = clamp(sigmoid(predictions[i], f), epsilon, one - epsilon);
        let term: V = target * f.ln(prob) + (one - target) * f.ln(one - prob);
        list.push(term.neg());
        i = i + 1;
    }
    assert(list@ =~= entropy_terms(f, predictions@, targets@));
    mean_number(list.as_slice(), f)
}

/// Computes [`log_probability`].
fn log_probability_number<V: Number, F: Functions<V>>(
    logits: &[V],
    class_index: usize,
    f: &F,
) -> (r: V)
    requires
        crate::number::arithmetic::<V>(),
        crate::functions::computes(f),
        class_index < logits@.len(),
    ensures
        r == log_probability(f, logits@, class_index as int),
{
    let mut top: V = lowest_number();
    let mut i: usize = 0;
    assert(logits@.take(0) =~= Seq::empty());
    while i < logits.len()
        invariant
            crate::number::arithmetic::<V>(),
            i <= logits.len(),
            top == top_of(logits@.take(i as int)),
        decreases logits.len() - i,
    {
        assert(logits@.take(i + 1).drop_last() =~= logits@.take(i as int));
        top = greater(top, logits[i]);
        i = i + 1;
    }
    assert(logits@.take(i as int) =~= logits@);
    let mut list: Vec<V> = Vec::new();
    let mut j: usize = 0;
    while j < logits.len()
        invariant
            crate::number::arithmetic::<V>(),
            crate::functions::computes(f),
            top == top_of(logits@),
            j <= logits.len(),
            list@.len() == j,
            forall|k: int|
                0 <= k < j ==> #[trigger] list@[k] == crate::functions::exp_of(
                    f,
                    crate::number::minus(logits@[k], top),
                ),
        decreases logits.len() - j,
    {
        list.push(f.exp(logits[j] - top));
        j = j + 1;
    }
    assert(list@ =~= relative_exponentials(f, logits@));
    let log_prob: V = logits[class_index] - top - f.ln(sum(list.as_slice()));
    let epsilon: V = small_fraction(7);
    greater(log_prob, f.ln(epsilon))
}

/// The cross entropy of several classes.
fn compute_multi_class_log_loss<V: Number, F: Functions<V>>(
    predictions: &[V],
    targets: &[V],
    n_classes: usize,
    f: &F,
) -> (r: V)
    requires
        crate::number::arithmetic::<V>(),
        crate::functions::computes(f),
        predictions@.len() == targets@.len() * n_classes,
    ensures
        r == multi_class_loss(f, predictions@, targets@, n_classes as nat),
{
    if n_classes < 2 {
        return highest_number();
    }
    let mut rest: V = V::from(0u8);
    let len: usize = predictions.len();
    let mut i: usize = 0;
    while i < targets.len()
        invariant
            crate::number::arithmetic::<V>(),
            crate::functions::computes(f),
            n_classes >= 2,
            len == predictions@.len(),
            predictions@.len() == targets@.len() * n_classes,
            i <= targets.len(),
            forall|k: int|
                0 <= k < i ==> crate::functions::whole_of(f, #[trigger] targets@[k]) < n_classes,
            rest == log_loss_sum(f, predictions@, targets@, n_classes as nat, i as nat),
        decreases targets.len() - i,
    {
        let class_index: usize = f.whole(targets[i]);
        if class_index >= n_classes {
            assert(!classes_known(f, targets@, n_classes as nat)) by {
                assert(!(crate::functions::whole_of(f, targets@[i as int]) < n_classes));
            }
            return highest_number();
        }
        proof {
            assert(i * n_classes + n_classes <= targets@.len() * n_classes) by (nonlinear_arith)
                requires
                    i + 1 <= targets@.len(),
            ;
            assert(i * n_classes >= 0) by (nonlinear_arith);
        }
        let start: usize = i * n_classes;
        let logits = vstd::slice::slice_subrange(predictions, start, start + n_classes);
        assert(logits@ == logits_of(predictions@, n_classes as nat, i as int));
        rest = rest - log_probability_number(logits, class_index, f);
        i = i + 1;
    }
    let n: V = f.count(targets.len());
    rest / n
}

/// The share of the samples whose class is predicted.
fn compute_accuracy<V: Number, F: Functions<V>>(
    predictions: &[V],
    targets: &[V],
    threshold: V,
    f: &F,
) -> (r: V)
    requires
        crate::number::arithmetic::<V>(),
        crate::functions::computes(f),
        predictions@.len() == targets@.len(),
    ensures
        r == crate::number::over(
            crate::functions::count_of::<V, F>(
                f,
                hits(f, predictions@, targets@, threshold, predictions@.len()) as usize,
            ),
            crate::functions::count_of::<V, F>(f, predictions@.len() as usize),
        ),
{
    let half: V = ratio_number(1, 2);
    let mut correct: usize = 0;
    let mut i: usize = 0;
    while i < predictions.len()
        invariant
            crate::number::arithmetic::<V>(),
            crate::functions::computes(f),
            half == crate::number::ratio::<V>(1, 2),
            predictions@.len() == targets@.len(),
            i <= predictions.len(),
            correct <= i,
            correct == hits(f, predictions@, targets@, threshold, i as nat),
        decreases predictions.len() - i,
    {
        let prob: V = sigmoid(predictions[i], f);
        let class: V = if prob >= threshold {
            V::from(1u8)
        } else {
            V::from(0u8)
        };
        if magnitude(class - targets[i]) < half {
            correct = correct + 1;
        }
        i = i + 1;
    }
    let hit: V = f.count(correct);
    let all: V = f.count(predictions.len());
    hit / all
}

impl<V: Number> Metric<V> {
    /// How well predictions fit; infinity, if their number is wrong.
    pub open spec fn value<F: Functions<V>>(
        self,
        f: &F,
        predictions: Seq<V>,
        targets: Seq<V>,
    ) -> V {
        if targets.len() == 0 {
            crate::number::highest()
        } else if let Metric::MultiClassLogLoss { n_classes } = self {
            if predictions.len() != targets.len() * n_classes {
                crate::number::highest()
            } else {
                multi_class_loss(f, predictions, targets, n_classes as nat)
            }
        } else if predictions.len() != targets.len() {
            crate::number::highest()
        } else {
            match self {
                Metric::Mse => mean(f, square_errors(f, predictions, targets)),
                Metric::Rmse => crate::functions::root_of(
                    f,
                    mean(f, square_errors(f, predictions, targets)),
                ),
                Metric::Mae => mean(f, absolute_errors(predictions, targets)),
                Metric::BinaryLogLoss => mean(f, entropy_terms(f, predictions, targets)),
                Metric::MultiClassLogLoss { .. } => crate::number::highest(),
                Metric::Accuracy { threshold } => crate::number::over(
                    crate::functions::count_of::<V, F>(
                        f,
                        hits(f, predictions, targets, threshold, predictions.len()) as usize,
                    ),
                    crate::functions::count_of::<V, F>(f, predictions.len() as usize),
                ),
            }
        }
    }

    /// The mean of the squared errors.
    pub fn mse() -> (r: Self)
        ensures
            r == Metric::<V>::Mse,
    {
        Metric::Mse
    }

    /// The root of the mean of the squared errors.
    pub fn rmse() -> (r: Self)
        ensures
            r == Metric::<V>::Rmse,
    {
        Metric::Rmse
    }

    /// The mean of the errors without their signs.
    pub fn mae() -> (r: Self)
        ensures
            r == Metric::<V>::Mae,
    {
        Metric::Mae
    }

    /// The cross entropy of two classes.
    pub fn binary_log_loss() -> (r: Self)
        ensures
            r == Metric::<V>::BinaryLogLoss,
    {
        Metric::BinaryLogLoss
    }

    /// The cross entropy of several classes.
    pub fn multi_class_log_loss(n_classes: usize) -> (r: Self)
        ensures
            r == (Metric::<V>::MultiClassLogLoss { n_classes }),
    {
        Metric::MultiClassLogLoss { n_classes }
    }

    /// The share of the samples whose class is predicted, from one half on.
    pub fn accuracy() -> (r: Self)
        requires
            crate::number::arithmetic::<V>(),
        ensures
            r == (Metric::Accuracy { threshold: crate::number::ratio::<V>(1, 2) }),
    {
        Metric::Accuracy { threshold: ratio_number(1, 2) }
    }

    /// The share of the samples whose class is predicted, from a threshold on.
    pub fn accuracy_with_threshold(threshold: V) -> (r: Self)
        ensures
            r == (Metric::Accuracy { threshold }),
    {
        Metric::Accuracy { threshold }
    }

    /// The measure that goes with the loss of a name.
    pub fn from_loss_type(name: &str) -> (r: Self)
        ensures
            r == (if name@ == "binary_log_loss"@ {
                Metric::<V>::BinaryLogLoss
            } else if name@ == "multi_class_log_loss"@ {
                Metric::MultiClassLogLoss { n_classes: 2 }
            } else {
                Metric::Mse
            }),
    {
        if same_text(name, "binary_log_loss") {
            Metric::BinaryLogLoss
        } else if same_text(name, "multi_class_log_loss") {
            Metric::MultiClassLogLoss { n_classes: 2 }
        } else {
            Metric::Mse
        }
    }

    /// Whether lower is better.
    pub fn lower_is_better(&self) -> (r: bool)
        ensures
            r == !(*self is Accuracy),
    {
        !matches!(self, Metric::Accuracy { .. })
    }

    /// How well predictions fit; infinity, if their number is wrong.
    pub fn compute<F: Functions<V>>(&self, predictions: &[V], targets: &[V], f: &F) -> (r: V)
        requires
            crate::number::arithmetic::<V>(),
            crate::functions::computes(f),
            *self matches Metric::MultiClassLogLoss { n_classes } ==> targets@.len() * n_classes
                <= usize::MAX,
        ensures
            r == self.value(f, predictions@, targets@),
    {
        if targets.len() == 0 {
            return highest_number();
        }
        if let Metric::MultiClassLogLoss { n_classes } = self {
            if predictions.len() != targets.len() * *n_classes {
                return highest_number();
            }
            return compute_multi_class_log_loss(predictions, targets, *n_classes, f);
        }
        if predictions.len() != targets.len() {
            return highest_number();
        }
        match self {
            Metric::Mse => compute_mse(predictions, targets, f),
            Metric::Rmse => f.root(compute_mse(predictions, targets, f)),
            Metric::Mae => compute_mae(predictions, targets, f),
            Metric::BinaryLogLoss => compute_binary_log_loss(predictions, targets, f),
            Metric::MultiClassLogLoss { .. } => highest_number(),
            Metric::Accuracy { threshold } => compute_accuracy(predictions, targets, *threshold, f),
        }
    }

    /// The name of the measure.
    pub fn name(&self) -> (r: &'static str)
        ensures
            r@ == match *self {
                Metric::Mse => "mse"@,
                Metric::Rmse => "rmse"@,
                Metric::Mae => "mae"@,
                Metric::BinaryLogLoss => "binary_log_loss"@,
                Metric::MultiClassLogLoss { .. } => "multi_class_log_loss"@,
                Metric::Accuracy { .. } => "accuracy"@,
            },
    {
        match self {
            Metric::Mse => "mse",
            Metric::Rmse => "rmse",
            Metric::Mae => "mae",
            Metric::BinaryLogLoss => "binary_log_loss",
            Metric::MultiClassLogLoss { .. } => "multi_class_log_loss",
            Metric::Accuracy { .. } => "accuracy",
        }
    }
}

impl<V: Number> Default for Metric<V> {
    fn default() -> (r: Self)
        ensures
            r == Metric::<V>::Mse,
    {
        Metric::Mse
    }
}

/// The logistic function gives a probability whose odds are the exponential of
/// the number.
pub proof fn law_sigmoid_gives_odds<V: Number, F: Functions<V>>(
    worth: spec_fn(V) -> real,
    f: &F,
    x: V,
)
    requires
        crate::exact::exact(worth),
        crate::exact::distinct::<V>(),
        crate::exact::powers(f, worth),
    ensures
        0real < worth(sigmoid_of(f, x)),
        worth(sigmoid_of(f, x)) < 1real,
        worth(sigmoid_of(f, x)) == (1real - worth(sigmoid_of(f, x))) * worth(
            crate::functions::exp_of(f, x),
        ),
{
    let other = crate::number::negated(x);
    crate::exact::lemma_exp_inverse(f, worth, x, other);
    let s = worth(sigmoid_of(f, x));
    let e = worth(crate::functions::exp_of(f, x));
    let g = worth(crate::functions::exp_of(f, other));
    assert((1real - s) * e == e - s * e) by (nonlinear_arith);
    if worth(x) >= 0real {
        crate::exact::lemma_quotient(1real, 1real + g);
        assert(s * (1real + g) == 1real);
        assert(s * (1real + g) == s + s * g) by (nonlinear_arith);
        assert((s * g) * e == s * (e * g)) by (nonlinear_arith);
        assert(s * 1real == s) by (nonlinear_arith);
        let t = 1real - s;
        assert(t * e == (s * g) * e);
        assert(s > 0real) by (nonlinear_arith)
            requires
                s * (1real + g) == 1real,
                g > 0real,
        ;
        assert(s * g > 0real) by (nonlinear_arith)
            requires
                s > 0real,
                g > 0real,
        ;
    } else {
        crate::exact::lemma_quotient(e, 1real + e);
        assert(s * (1real + e) == e);
        assert(s * (1real + e) == s + s * e) by (nonlinear_arith);
        assert(s > 0real) by (nonlinear_arith)
            requires
                s * (1real + e) == e,
                e > 0real,
        ;
        let t = 1real - s;
        assert(t > 0real) by (nonlinear_arith)
            requires
                t * e == s,
                s > 0real,
                e > 0real,
        ;
    }
}

/// Opposite numbers have probabilities that add up to one.
pub proof fn law_sigmoid_is_symmetric<V: Number, F: Functions<V>>(
    worth: spec_fn(V) -> real,
    f: &F,
    x: V,
)
    requires
        crate::exact::exact(worth),
        crate::exact::distinct::<V>(),
        crate::exact::powers(f, worth),
    ensures
        worth(sigmoid_of(f, x)) + worth(sigmoid_of(f, crate::number::negated(x))) == 1real,
{
    let other = crate::number::negated(x);
    law_sigmoid_gives_odds(worth, f, x);
    law_sigmoid_gives_odds(worth, f, other);
    crate::exact::lemma_exp_inverse(f, worth, x, other);
    let (s, t) = (worth(sigmoid_of(f, x)), worth(sigmoid_of(f, other)));
    let e = worth(crate::functions::exp_of(f, x));
    let g = worth(crate::functions::exp_of(f, other));
    let u = 1real - s;
    assert(((1real - s) * e) * g == (1real - s) * (e * g)) by (nonlinear_arith);
    assert((1real - s) * 1real == 1real - s) by (nonlinear_arith);
    assert(s * g == u);
    assert((1real - u) * g == g - u * g) by (nonlinear_arith);
    assert((1real - t) * g == g - t * g) by (nonlinear_arith);
    assert((1real + g) * u == u + u * g) by (nonlinear_arith);
    assert((1real + g) * t == t + t * g) by (nonlinear_arith);
    assert(1real - u == s);
    crate::exact::lemma_cancel(u, t, 1real + g);
}

/// The mean of two lists, one after the other, is theirs weighed by their
/// lengths, and a single number is its own mean.
pub proof fn law_mean_is_weighed<V: Number, F: Functions<V>>(
    worth: spec_fn(V) -> real,
    f: &F,
    a: Seq<V>,
    b: Seq<V>,
    v: V,
)
    requires
        crate::exact::exact(worth),
        crate::exact::counts(f, worth),
        a.len() > 0,
        b.len() > 0,
        a.len() + b.len() <= usize::MAX,
    ensures
        worth(mean(f, a + b)) * ((a.len() + b.len()) as real) == worth(mean(f, a)) * (
        a.len() as real) + worth(mean(f, b)) * (b.len() as real),
        worth(mean(f, seq![v])) == worth(v),
{
    crate::exact::law_totals_add_up(worth, a, b, v);
    let (m, n) = (a.len() as real, b.len() as real);
    let (x, y) = (worth(crate::number::total(a)), worth(crate::number::total(b)));
    crate::exact::lemma_quotient(x, m);
    crate::exact::lemma_quotient(y, n);
    crate::exact::lemma_quotient(x + y, m + n);
    crate::exact::lemma_quotient(worth(v), 1real);
    let q = worth(v) / 1real;
    assert(q * 1real == q) by (nonlinear_arith);
}

/// The metric is a mean over the samples: what it gives for two sets of samples,
/// one after the other, is what it gives for each, weighed by their numbers.
pub proof fn law_metrics_are_means<V: Number, F: Functions<V>>(
    worth: spec_fn(V) -> real,
    f: &F,
    metric: Metric<V>,
    p: (Seq<V>, Seq<V>),
    t: (Seq<V>, Seq<V>),
)
    requires
        crate::exact::exact(worth),
        crate::exact::counts(f, worth),
        metric is Mse || metric is Mae || metric is BinaryLogLoss || metric is Accuracy,
        p.0.len() == t.0.len(),
        p.1.len() == t.1.len(),
        p.0.len() > 0,
        p.1.len() > 0,
        p.0.len() + p.1.len() <= usize::MAX,
    ensures
        worth(metric.value(f, p.0 + p.1, t.0 + t.1)) * ((p.0.len() + p.1.len()) as real) == worth(
            metric.value(f, p.0, t.0),
        ) * (p.0.len() as real) + worth(metric.value(f, p.1, t.1)) * (p.1.len() as real),
{
    let (all_p, all_t) = (p.0 + p.1, t.0 + t.1);
    match metric {
        Metric::Mse => {
            let a = square_errors(f, p.0, t.0);
            let b = square_errors(f, p.1, t.1);
            assert(square_errors(f, all_p, all_t) =~= a + b);
            law_mean_is_weighed(worth, f, a, b, a[0]);
        },
        Metric::Mae => {
            let a = absolute_errors(p.0, t.0);
            let b = absolute_errors(p.1, t.1);
            assert(absolute_errors(all_p, all_t) =~= a + b);
            law_mean_is_weighed(worth, f, a, b, a[0]);
        },
        Metric::BinaryLogLoss => {
            let a = entropy_terms(f, p.0, t.0);
            let b = entropy_terms(f, p.1, t.1);
            assert(entropy_terms(f, all_p, all_t) =~= a + b);
            law_mean_is_weighed(worth, f, a, b, a[0]);
        },
        Metric::Accuracy { threshold } => {
            lemma_hits_add_up(f, p, t, threshold, p.1.len());
            lemma_hits_within(f, p.0, t.0, threshold, p.0.len());
            lemma_hits_within(f, p.1, t.1, threshold, p.1.len());
            let x = hits(f, p.0, t.0, threshold, p.0.len()) as real;
            let y = hits(f, p.1, t.1, threshold, p.1.len()) as real;
            let (m, n) = (p.0.len() as real, p.1.len() as real);
            crate::exact::lemma_quotient(x, m);
            crate::exact::lemma_quotient(y, n);
            crate::exact::lemma_quotient(x + y, m + n);
        },
        _ => {},
    }
}

proof fn lemma_hits_within<V: Number, F: Functions<V>>(
    f: &F,
    predictions: Seq<V>,
    targets: Seq<V>,
    threshold: V,
    n: nat,
)
    ensures
        hits(f, predictions, targets, threshold, n) <= n,
    decreases n,
{
    if n > 0 {
        lemma_hits_within(f, predictions, targets, threshold, (n - 1) as nat);
    }
}

proof fn lemma_hits_prefix<V: Number, F: Functions<V>>(
    f: &F,
    p: (Seq<V>, Seq<V>),
    t: (Seq<V>, Seq<V>),
    threshold: V,
    n: nat,
)
    requires
        n <= p.0.len(),
        p.0.len() == t.0.len(),
    ensures
        hits(f, p.0 + p.1, t.0 + t.1, threshold, n) == hits(f, p.0, t.0, threshold, n),
    decreases n,
{
    if n > 0 {
        lemma_hits_prefix(f, p, t, threshold, (n - 1) as nat);
    }
}

proof fn lemma_hits_add_up<V: Number, F: Functions<V>>(
    f: &F,
    p: (Seq<V>, Seq<V>),
    t: (Seq<V>, Seq<V>),
    threshold: V,
    n: nat,
)
    requires
        n <= p.1.len(),
        p.0.len() == t.0.len(),
        p.1.len() == t.1.len(),
    ensures
        hits(f, p.0 + p.1, t.0 + t.1, threshold, p.0.len() + n) == hits(
            f,
            p.0,
            t.0,
            threshold,
            p.0.len(),
        ) + hits(f, p.1, t.1, threshold, n),
    decreases n,
{
    if n == 0 {
        lemma_hits_prefix(f, p, t, threshold, p.0.len());
    } else {
        lemma_hits_add_up(f, p, t, threshold, (n - 1) as nat);
        let k = p.0.len() + n - 1;
        assert((p.0 + p.1)[k] == p.1[n - 1]);
        assert((t.0 + t.1)[k] == t.1[n - 1]);
    }
}

/// What the metrics give for one sample: the square of the error, and the error
/// without its sign. The root of the mean square has it for its square.
pub proof fn law_metrics_of_one_sample<V: Number, F: Functions<V>>(
    worth: spec_fn(V) -> real,
    f: &F,
    prediction: V,
    target: V,
)
    requires
        crate::exact::exact(worth),
        crate::exact::counts(f, worth),
        crate::exact::roots(f, worth),
        crate::exact::whole_powers(f, worth),
    ensures
        ({
            let p = seq![prediction];
            let t = seq![target];
            let e = worth(prediction) - worth(target);
            &&& worth(Metric::<V>::Mse.value(f, p, t)) == e * e
            &&& worth(Metric::<V>::Rmse.value(f, p, t)) * worth(Metric::<V>::Rmse.value(f, p, t))
                == e * e
            &&& worth(Metric::<V>::Rmse.value(f, p, t)) >= 0real
            &&& worth(Metric::<V>::Mae.value(f, p, t)) == (if e < 0real {
                0real - e
            } else {
                e
            })
        }),
{
    let p = seq![prediction];
    let t = seq![target];
    let d = crate::number::minus(prediction, target);
    let e = worth(d);
    let square = crate::functions::powi_of(f, d, 2);
    assert(worth(square) == worth(crate::functions::powi_of(f, d, 1)) * e);
    assert(worth(crate::functions::powi_of(f, d, 1)) == worth(crate::functions::powi_of(f, d, 0))
        * e);
    assert(1real * e == e) by (nonlinear_arith);
    assert(e * e >= 0real) by (nonlinear_arith);
    assert(square_errors(f, p, t) =~= seq![square]);
    let size = crate::number::absolute(d);
    assert(absolute_errors(p, t) =~= seq![size]);
    law_mean_is_weighed(worth, f, p, t, square);
    law_mean_is_weighed(worth, f, p, t, size);
}

proof fn lemma_kept_probabilities<V: Number, F: Functions<V>>(
    worth: spec_fn(V) -> real,
    f: &F,
    a: V,
    b: V,
)
    requires
        crate::exact::exact(worth),
        worth(sigmoid_of(f, a)) + worth(sigmoid_of(f, b)) == 1real,
    ensures
        worth(kept_probability(f, a)) + worth(kept_probability(f, b)) == 1real,
{
    crate::exact::law_tenths::<V>(worth, 6);
    crate::exact::lemma_tenth_positive::<V>(worth, 6);
    crate::exact::lemma_tenth_positive::<V>(worth, 7);
}

proof fn lemma_exchanged_term<V: Number, F: Functions<V>>(
    worth: spec_fn(V) -> real,
    f: &F,
    a: V,
    b: V,
    target: V,
)
    requires
        crate::exact::exact(worth),
        crate::exact::distinct::<V>(),
        worth(kept_probability(f, a)) + worth(kept_probability(f, b)) == 1real,
    ensures
        worth(entropy_term(f, b, crate::number::minus(crate::number::small(1), target))) == worth(
            entropy_term(f, a, target),
        ),
{
    let one = crate::number::small::<V>(1);
    let p = kept_probability(f, a);
    let q = kept_probability(f, b);
    assert(crate::number::same(crate::number::minus(one, p), q));
    assert(crate::number::same(crate::number::minus(one, q), p));
    let flipped = crate::number::minus(one, target);
    assert(crate::number::same(crate::number::minus(one, flipped), target));
}

/// The cross entropy does not change where the classes are exchanged and the
/// prediction gets the opposite sign.
pub proof fn law_classes_can_be_exchanged<V: Number, F: Functions<V>>(
    worth: spec_fn(V) -> real,
    f: &F,
    prediction: V,
    target: V,
)
    requires
        crate::exact::exact(worth),
        crate::exact::distinct::<V>(),
        crate::exact::powers(f, worth),
    ensures
        worth(
            entropy_term(
                f,
                crate::number::negated(prediction),
                crate::number::minus(crate::number::small(1), target),
            ),
        ) == worth(entropy_term(f, prediction, target)),
{
    let other = crate::number::negated(prediction);
    law_sigmoid_is_symmetric(worth, f, prediction);
    lemma_kept_probabilities(worth, f, prediction, other);
    lemma_exchanged_term(worth, f, prediction, other, target);
}

/// The cross entropy of a sample of the positive class is minus the logarithm of
/// its probability, which is kept within a ten-millionth of zero and one, and is
/// that of the logistic function between.
pub proof fn law_cross_entropy_of_the_positive_class<V: Number, F: Functions<V>>(
    worth: spec_fn(V) -> real,
    f: &F,
    prediction: V,
    target: V,
)
    requires
        crate::exact::exact(worth),
        crate::exact::distinct::<V>(),
        crate::exact::powers(f, worth),
        worth(target) == 1real,
    ensures
        worth(entropy_term(f, prediction, target)) == 0real - worth(
            crate::functions::ln_of(f, kept_probability(f, prediction)),
        ),
        worth(kept_probability(f, prediction)) * worth(crate::number::ten_to::<V>(7)) >= 1real,
        (1real - worth(kept_probability(f, prediction))) * worth(crate::number::ten_to::<V>(7))
            >= 1real,
        worth(sigmoid_of(f, prediction)) >= 1real / 10real && worth(sigmoid_of(f, prediction))
            <= 9real / 10real ==> worth(kept_probability(f, prediction)) == worth(
            sigmoid_of(f, prediction),
        ),
{
    crate::exact::law_tenths::<V>(worth, 6);
    crate::exact::lemma_tenth_positive::<V>(worth, 6);
    crate::exact::lemma_tenth_positive::<V>(worth, 7);
    let p = worth(kept_probability(f, prediction));
    let u = worth(crate::number::tenth_to::<V>(7));
    let t = worth(crate::number::ten_to::<V>(7));
    assert(p >= u && 1real - p >= u);
    assert(p * t >= u * t) by (nonlinear_arith)
        requires
            p >= u,
            t >= 1real,
    ;
    let r = 1real - p;
    assert(r * t >= u * t) by (nonlinear_arith)
        requires
            r >= u,
            t >= 1real,
    ;
    let one = crate::number::small::<V>(1);
    let a = worth(crate::functions::ln_of(f, kept_probability(f, prediction)));
    let b = worth(
        crate::functions::ln_of(f, crate::number::minus(one, kept_probability(f, prediction))),
    );
    assert(1real * a == a && 0real * b == 0real) by (nonlinear_arith);
}

/// Of two classes of a sample the one with the greater prediction is no less
/// likely, and predictions that are all raised by the same mean the same.
pub proof fn law_greater_predictions_are_likelier<V: Number, F: Functions<V>>(
    worth: spec_fn(V) -> real,
    f: &F,
    logits: Seq<V>,
    a: int,
    b: int,
)
    requires
        crate::exact::exact(worth),
        0 <= a < logits.len(),
        0 <= b < logits.len(),
        worth(logits[a]) <= worth(logits[b]),
    ensures
        worth(log_probability(f, logits, a)) <= worth(log_probability(f, logits, b)),
{
}

/// The exponentials of how much each number of a list is above one of them.
pub open spec fn ratios_of<V: Number, F: Functions<V>>(f: &F, list: Seq<V>, a: int) -> Seq<V> {
    Seq::new(
        list.len(),
        |i: int| crate::functions::exp_of(f, crate::number::minus(list[i], list[a])),
    )
}

proof fn lemma_ratios<V: Number, F: Functions<V>>(
    worth: spec_fn(V) -> real,
    f: &F,
    list: Seq<V>,
    a: int,
)
    requires
        crate::exact::exact(worth),
        crate::exact::distinct::<V>(),
        crate::exact::powers(f, worth),
        0 <= a < list.len(),
    ensures
        worth(crate::number::total(relative_exponentials(f, list))) > 0real,
        worth(crate::number::total(relative_exponentials(f, list))) == worth(
            crate::functions::exp_of(f, crate::number::minus(list[a], top_of(list))),
        ) * worth(crate::number::total(ratios_of(f, list, a))),
{
    let top = top_of(list);
    let relative = relative_exponentials(f, list);
    let ratios = ratios_of(f, list, a);
    let lead = crate::number::minus(list[a], top);
    let c = worth(crate::functions::exp_of(f, lead));
    assert forall|i: int| 0 <= i < ratios.len() implies worth(#[trigger] relative[i]) == c * worth(
        ratios[i],
    ) && worth(relative[i]) > 0real by {
        let ahead = crate::number::minus(list[i], list[a]);
        let behind = crate::number::minus(list[i], top);
        crate::exact::lemma_exp_adds(f, worth, lead, ahead, behind);
    }
    crate::exact::lemma_total_scaled(worth, ratios, relative, c);
    crate::exact::lemma_total_of_squares(worth, relative);
    assert(worth(relative[a]) > 0real);
}

/// The probability of a class, where it is not too small to be told, is one over
/// the exponentials of how much each prediction is above that of the class.
pub proof fn law_probabilities_are_shares<V: Number, F: Functions<V>>(
    worth: spec_fn(V) -> real,
    f: &F,
    logits: Seq<V>,
    a: int,
)
    requires
        crate::exact::exact(worth),
        crate::exact::distinct::<V>(),
        crate::exact::powers(f, worth),
        0 <= a < logits.len(),
    ensures
        worth(log_probability(f, logits, a)) >= worth(
            crate::functions::ln_of(f, crate::number::tenth_to(7)),
        ),
        worth(log_probability(f, logits, a)) > worth(
            crate::functions::ln_of(f, crate::number::tenth_to(7)),
        ) ==> worth(crate::functions::exp_of(f, log_probability(f, logits, a))) * worth(
            crate::number::total(ratios_of(f, logits, a)),
        ) == 1real,
{
    let sum = crate::number::total(relative_exponentials(f, logits));
    let lead = crate::number::minus(logits[a], top_of(logits));
    let part = crate::functions::ln_of(f, sum);
    let plain = crate::number::minus(lead, part);
    let z = worth(sum);
    let r = worth(crate::number::total(ratios_of(f, logits, a)));
    let c = worth(crate::functions::exp_of(f, lead));
    let q = worth(crate::functions::exp_of(f, plain));
    lemma_ratios(worth, f, logits, a);
    crate::exact::lemma_exp_adds(f, worth, plain, part, lead);
    assert(c == q * z);
    assert(q * (c * r) == c * (q * r)) by (nonlinear_arith);
    assert(c * 1real == c) by (nonlinear_arith);
    crate::exact::lemma_cancel(q * r, 1real, c);
}

/// Where the classes are zero and one, the class of a sample is predicted exactly
/// if its probability reaches the threshold for the one and not for the other.
pub proof fn law_hit_is_the_right_side<V: Number, F: Functions<V>>(
    worth: spec_fn(V) -> real,
    f: &F,
    prediction: V,
    target: V,
    threshold: V,
)
    requires
        crate::exact::exact(worth),
        worth(target) == 0real || worth(target) == 1real,
    ensures
        class_is_hit(f, prediction, target, threshold) <==> (worth(sigmoid_of(f, prediction))
            >= worth(threshold) <==> worth(target) == 1real),
{
    crate::exact::lemma_quotient(1real, 2real);
}

/// The greatest of a list is one of its entries or the least number, and no entry
/// is above it.
pub proof fn law_top_is_greatest<V: Number>(worth: spec_fn(V) -> real, list: Seq<V>)
    requires
        crate::exact::exact(worth),
    ensures
        list.contains(top_of(list)) || top_of(list) == crate::number::lowest::<V>(),
        forall|i: int| 0 <= i < list.len() ==> worth(#[trigger] list[i]) <= worth(top_of(list)),
    decreases list.len(),
{
    if list.len() > 0 {
        let fewer = list.drop_last();
        law_top_is_greatest(worth, fewer);
        let last = list.len() - 1;
        assert(list[last] == list.last());
        if fewer.contains(top_of(fewer)) {
            let i = choose|i: int| 0 <= i < fewer.len() && fewer[i] == top_of(fewer);
            assert(list[i] == top_of(fewer));
        }
        assert forall|i: int| 0 <= i < list.len() implies worth(#[trigger] list[i]) <= worth(
            top_of(list),
        ) by {
            if i < last {
                assert(fewer[i] == list[i]);
            }
        }
    }
}

proof fn lemma_logits_in_parts<V>(p: (Seq<V>, Seq<V>), n_classes: nat, m: nat, i: int)
    requires
        p.0.len() == m * n_classes,
        0 <= i,
        i >= m ==> (i - m + 1) * n_classes <= p.1.len(),
    ensures
        i < m ==> logits_of(p.0 + p.1, n_classes, i) == logits_of(p.0, n_classes, i),
        i >= m ==> logits_of(p.0 + p.1, n_classes, i) == logits_of(p.1, n_classes, i - m),
{
    let k = n_classes as int;
    if i < m {
        assert(0 <= i * k && i * k + k <= m * k) by (nonlinear_arith)
            requires
                0 <= i < m,
                k >= 0,
        ;
        assert(logits_of(p.0 + p.1, n_classes, i) =~= logits_of(p.0, n_classes, i));
    } else {
        let j = i - m;
        assert(i * k == m * k + j * k) by (nonlinear_arith)
            requires
                i == m + j,
        ;
        assert(0 <= j * k && j * k + k == (j + 1) * k) by (nonlinear_arith)
            requires
                0 <= j,
                k >= 0,
        ;
        assert(logits_of(p.0 + p.1, n_classes, i) =~= logits_of(p.1, n_classes, j));
    }
}

proof fn lemma_log_losses_add_up<V: Number, F: Functions<V>>(
    worth: spec_fn(V) -> real,
    f: &F,
    p: (Seq<V>, Seq<V>),
    t: (Seq<V>, Seq<V>),
    n_classes: nat,
    i: nat,
)
    requires
        crate::exact::exact(worth),
        p.0.len() == t.0.len() * n_classes,
        p.1.len() == t.1.len() * n_classes,
        i <= t.0.len() + t.1.len(),
    ensures
        i <= t.0.len() ==> log_loss_sum(f, p.0 + p.1, t.0 + t.1, n_classes, i) == log_loss_sum(
            f,
            p.0,
            t.0,
            n_classes,
            i,
        ),
        i >= t.0.len() ==> worth(log_loss_sum(f, p.0 + p.1, t.0 + t.1, n_classes, i)) == worth(
            log_loss_sum(f, p.0, t.0, n_classes, t.0.len()),
        ) + worth(log_loss_sum(f, p.1, t.1, n_classes, (i - t.0.len()) as nat)),
    decreases i,
{
    let m = t.0.len();
    assert(worth(log_loss_sum(f, p.1, t.1, n_classes, 0)) == 0real);
    if i > 0 {
        lemma_log_losses_add_up(worth, f, p, t, n_classes, (i - 1) as nat);
        let k = i - 1;
        if k >= m {
            let (j, n) = (k - m + 1, n_classes as int);
            assert(j * n <= t.1.len() * n) by (nonlinear_arith)
                requires
                    j <= t.1.len(),
                    n >= 0,
            ;
            assert((t.0 + t.1)[k] == t.1[k - m]);
        } else {
            assert((t.0 + t.1)[k] == t.0[k]);
        }
        lemma_logits_in_parts(p, n_classes, m, k);
    }
}

/// The loss over several classes is a mean over the samples, and that of a single
/// sample is minus the logarithm of the probability of its class.
pub proof fn law_multi_class_loss_is_a_mean<V: Number, F: Functions<V>>(
    worth: spec_fn(V) -> real,
    f: &F,
    p: (Seq<V>, Seq<V>),
    t: (Seq<V>, Seq<V>),
    n_classes: nat,
)
    requires
        crate::exact::exact(worth),
        crate::exact::counts(f, worth),
        n_classes >= 2,
        p.0.len() == t.0.len() * n_classes,
        p.1.len() == t.1.len() * n_classes,
        t.0.len() > 0,
        t.1.len() > 0,
        t.0.len() + t.1.len() <= usize::MAX,
        classes_known(f, t.0, n_classes),
        classes_known(f, t.1, n_classes),
    ensures
        worth(multi_class_loss(f, p.0 + p.1, t.0 + t.1, n_classes)) * ((t.0.len()
            + t.1.len()) as real) == worth(multi_class_loss(f, p.0, t.0, n_classes)) * (
        t.0.len() as real) + worth(multi_class_loss(f, p.1, t.1, n_classes)) * (
        t.1.len() as real),
        t.0.len() == 1 ==> worth(multi_class_loss(f, p.0, t.0, n_classes)) == 0real - worth(
            log_probability(f, p.0, crate::functions::whole_of(f, t.0[0]) as int),
        ),
{
    let all = t.0 + t.1;
    assert forall|i: int| 0 <= i < all.len() implies crate::functions::whole_of(
        f,
        #[trigger] all[i],
    ) < n_classes by {
        if i < t.0.len() {
            assert(all[i] == t.0[i]);
        } else {
            assert(all[i] == t.1[i - t.0.len()]);
        }
    }
    lemma_log_losses_add_up(worth, f, p, t, n_classes, all.len());
    lemma_log_losses_add_up(worth, f, p, t, n_classes, t.0.len());
    let (m, n) = (t.0.len() as real, t.1.len() as real);
    let x = worth(log_loss_sum(f, p.0, t.0, n_classes, t.0.len()));
    let y = worth(log_loss_sum(f, p.1, t.1, n_classes, t.1.len()));
    crate::exact::lemma_quotient(x, m);
    crate::exact::lemma_quotient(y, n);
    crate::exact::lemma_quotient(x + y, m + n);
    if t.0.len() == 1 {
        assert(worth(log_loss_sum(f, p.0, t.0, n_classes, 0)) == 0real);
        assert(1 * n_classes == n_classes && 0 * n_classes == 0) by (nonlinear_arith);
        assert(logits_of(p.0, n_classes, 0) =~= p.0);
        let q = x / 1real;
        assert(q * 1real == q) by (nonlinear_arith);
    }
}

} // verus!
