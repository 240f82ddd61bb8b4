//! What is measured of a candidate.

use crate::error::{Result, TreeBoostError};
use crate::functions::Functions;
use crate::number::{ratio_number, sum, Number};
use crate::tuner::history::OptimizationMetric;
use crate::tuner::metrics::Metric;
use vstd::prelude::*;

verus! {

/// What is learnt.
#[derive(Debug, Clone, Copy, PartialEq, Eq, Structural)]
pub enum TaskType {
    /// A number.
    Regression,
    /// One of two classes.
    BinaryClassification,
    /// One of several classes.
    MultiClassClassification,
}

impl TaskType {
    /// Whether a number is learnt.
    pub fn is_regression(&self) -> (r: bool)
        ensures
            r == (*self is Regression),
    {
        matches!(self, TaskType::Regression)
    }

    /// Whether one of two classes is learnt.
    pub fn is_binary(&self) -> (r: bool)
        ensures
            r == (*self is BinaryClassification),
    {
        matches!(self, TaskType::BinaryClassification)
    }

    /// Whether a class is learnt.
    pub fn is_classification(&self) -> (r: bool)
        ensures
            r == !(*self is Regression),
    {
        !self.is_regression()
    }
}

/// What was measured of a candidate. `W` is the type of the numbers that need
/// more precision.
#[derive(Debug, Clone, Copy)]
pub struct EvalMetrics<V, W> {
    /// The loss on the data held back.
    pub val_metric: V,
    /// The loss on the data of the training.
    pub train_metric: V,
    /// How many trees were trained.
    pub num_trees: usize,
    /// The harmonic mean of precision and recall.
    pub f1_score: Option<V>,
    /// The area under the receiver operating characteristic.
    pub roc_auc: Option<W>,
    /// The correlation of the ranks.
    pub rank_ic: Option<W>,
}

/// A prediction stands for the positive class.
pub open spec fn predicted_positive<V: Number, F: Functions<V>>(f: &F, prediction: V) -> bool {
    crate::number::at_least(
        crate::number::over(
            crate::number::small(1),
            crate::number::plus(
                crate::number::small(1),
                crate::functions::exp_of(f, crate::number::negated(prediction)),
            ),
        ),
        crate::number::ratio(1, 2),
    )
}

/// A target is the positive class.
pub open spec fn actually_positive<V: Number>(target: V) -> bool {
    crate::number::at_least(target, crate::number::ratio(1, 2))
}

/// How many of the first `n` samples are predicted positive or not, and are
/// positive or not.
pub open spec fn outcomes<V: Number, F: Functions<V>>(
    f: &F,
    predictions: Seq<V>,
    targets: Seq<V>,
    n: nat,
    predicted: bool,
    actual: bool,
) -> nat
    decreases n,
{
    if n == 0 {
        0
    } else {
        outcomes(f, predictions, targets, (n - 1) as nat, predicted, actual) + (if predicted_positive(
            f,
            predictions[n - 1],
        ) == predicted && actually_positive(targets[n - 1]) == actual {
            1nat
        } else {
            0nat
        })
    }
}

/// Every sample has one of the four outcomes.
pub proof fn law_outcomes_add_up<V: Number, F: Functions<V>>(
    f: &F,
    predictions: Seq<V>,
    targets: Seq<V>,
    n: nat,
)
    ensures
        outcomes(f, predictions, targets, n, true, true) + outcomes(
            f,
            predictions,
            targets,
            n,
            true,
            false,
        ) + outcomes(f, predictions, targets, n, false, true) + outcomes(
            f,
            predictions,
            targets,
            n,
            false,
            false,
        ) == n,
    decreases n,
{
    if n > 0 {
        law_outcomes_add_up(f, predictions, targets, (n - 1) as nat);
    }
}

/// The share that `part` is of `part` and `other` together; zero, if there is
/// nothing.
pub open spec fn share_of<V: Number, F: Functions<V>>(f: &F, part: nat, other: nat) -> V {
    if part + other > 0 {
        crate::number::over(
            crate::functions::count_of::<V, F>(f, part as usize),
            crate::functions::count_of::<V, F>(f, (part + other) as usize),
        )
    } else {
        crate::number::small(0)
    }
}

/// The harmonic mean of two numbers; zero, if their sum is not positive.
pub open spec fn harmonic_mean<V: Number>(a: V, b: V) -> V {
    if crate::number::above(crate::number::plus(a, b), crate::number::small(0)) {
        crate::number::over(
            crate::number::times(crate::number::times(crate::number::small(2), a), b),
            crate::number::plus(a, b),
        )
    } else {
        crate::number::small(0)
    }
}

/// The harmonic mean of precision and recall.
pub open spec fn f1_of<V: Number, F: Functions<V>>(
    f: &F,
    predictions: Seq<V>,
    targets: Seq<V>,
) -> V {
    let n = predictions.len();
    let tp = outcomes(f, predictions, targets, n, true, true);
    let fp = outcomes(f, predictions, targets, n, true, false);
    let missed = outcomes(f, predictions, targets, n, false, true);
    harmonic_mean(share_of(f, tp, fp), share_of(f, tp, missed))
}

/// The harmonic mean of precision and recall, if it is defined.
pub open spec fn f1_score_of<V: Number, F: Functions<V>>(
    f: &F,
    task_type: TaskType,
    predictions: Seq<V>,
    targets: Seq<V>,
) -> Option<V> {
    if task_type is BinaryClassification && predictions.len() > 0 && predictions.len()
        == targets.len() {
        Some(f1_of(f, predictions, targets))
    } else {
        None
    }
}

/// Computes [`share_of`].
fn share_number<V: Number, F: Functions<V>>(part: usize, other: usize, f: &F) -> (r: V)
    requires
        crate::number::arithmetic::<V>(),
        crate::functions::computes(f),
        part + other <= usize::MAX,
    ensures
        r == share_of::<V, F>(f, part as nat, other as nat),
{
    if part + other > 0 {
        let a: V = f.count(part);
        let b: V = f.count(part + other);
        a / b
    } else {
        V::from(0u8)
    }
}

/// The harmonic mean of precision and recall; nothing, unless there are two
/// classes and as many predictions as targets.
pub fn compute_f1_score<V: Number, F: Functions<V>>(
    task_type: TaskType,
    predictions: &[V],
    targets: &[V],
    f: &F,
) -> (r: Option<V>)
    requires
        crate::number::arithmetic::<V>(),
        crate::functions::computes(f),
    ensures
        r == f1_score_of(f, task_type, predictions@, targets@),
{
    if !task_type.is_binary() {
        return None;
    }
    if predictions.len() == 0 || predictions.len() != targets.len() {
        return None;
    }
    let zero: V = V::from(0u8);
    let one: V = V::from(1u8);
    let two: V = V::from(2u8);
    let half: V = ratio_number(1, 2);
    let mut true_positives: usize = 0;
    let mut false_positives: usize = 0;
    let mut false_negatives: usize = 0;
    let mut i: usize = 0;
    while i < predictions.len()
        invariant
            crate::number::arithmetic::<V>(),
            crate::functions::computes(f),
            one == crate::number::small::<V>(1),
            half == crate::number::ratio::<V>(1, 2),
            predictions@.len() == targets@.len(),
            i <= predictions.len(),
            true_positives + false_positives + false_negatives <= i,
            true_positives == outcomes(f, predictions@, targets@, i as nat, true, true),
            false_positives == outcomes(f, predictions@, targets@, i as nat, true, false),
            false_negatives == outcomes(f, predictions@, targets@, i as nat, false, true),
        decreases predictions.len() - i,
    {
        let prob: V = one / (one + f.exp(predictions[i].neg()));
        let predicted: bool = prob >= half;
        let actual: bool = targets[i] >= half;
        if predicted && actual {
            true_positives = true_positives + 1;
        } else if predicted {
            false_positives = false_positives + 1;
        } else if actual {
            false_negatives = false_negatives + 1;
        }
        i = i + 1;
    }
    let precision: V = share_number(true_positives, false_positives, f);
    let recall: V = share_number(true_positives, false_negatives, f);
    let f1: V = if precision + recall > zero {
        two * precision * recall / (precision + recall)
    } else {
        zero
    };
    Some(f1)
}

/// The loss that goes with what is learnt.
pub fn select_metric<V: Number>(task_type: TaskType) -> (r: Metric<V>)
    ensures
        r == (match task_type {
            TaskType::BinaryClassification => Metric::<V>::BinaryLogLoss,
            _ => Metric::Mse,
        }),
{
    match task_type {
        TaskType::Regression => Metric::Mse,
        TaskType::BinaryClassification => Metric::BinaryLogLoss,
        TaskType::MultiClassClassification => Metric::Mse,
    }
}

/// The further measures are what goes with the kind of task: `roc` computes the
/// area under the receiver operating characteristic and `ic` the correlation of
/// the ranks.
pub open spec fn measures<V: Number, W, F: Functions<V>, R, I>(
    f: &F,
    task_type: TaskType,
    predictions: &[V],
    targets: &[V],
    eras: Option<&[u16]>,
    roc: &R,
    ic: &I,
    r: (Option<V>, Option<W>, Option<W>),
) -> bool where R: Fn(&[V], &[V]) -> W, I: Fn(&[V], &[V], Option<&[u16]>) -> W {
    &&& r.0 == f1_score_of(f, task_type, predictions@, targets@)
    &&& r.1 is Some <==> task_type is BinaryClassification
    &&& r.1 is Some ==> call_ensures(*roc, (predictions, targets), r.1->0)
    &&& r.2 is Some <==> task_type is Regression
    &&& r.2 is Some ==> call_ensures(*ic, (predictions, targets, eras), r.2->0)
}

/// The further measures that go with the kind of task.
pub fn compute_additional_metrics<V: Number, W, F: Functions<V>, R, I>(
    task_type: TaskType,
    predictions: &[V],
    targets: &[V],
    eras: Option<&[u16]>,
    roc: &R,
    ic: &I,
    f: &F,
) -> (r: (Option<V>, Option<W>, Option<W>))
    where R: Fn(&[V], &[V]) -> W, I: Fn(&[V], &[V], Option<&[u16]>) -> W
    requires
        crate::number::arithmetic::<V>(),
        crate::functions::computes(f),
        call_requires(*roc, (predictions, targets)),
        call_requires(*ic, (predictions, targets, eras)),
    ensures
        measures(f, task_type, predictions, targets, eras, roc, ic, r),
{
    let f1_score: Option<V> = if task_type.is_classification() {
        compute_f1_score(task_type, predictions, targets, f)
    } else {
        None
    };
    let roc_auc: Option<W> = if task_type.is_binary() {
        Some(roc(predictions, targets))
    } else {
        None
    };
    let rank_ic: Option<W> = if task_type.is_regression() {
        Some(ic(predictions, targets, eras))
    } else {
        None
    };
    (f1_score, roc_auc, rank_ic)
}

/// The entries of a list at some places.
pub open spec fn picked<A>(list: Seq<A>, places: Seq<usize>) -> Seq<A> {
    Seq::new(places.len(), |i: int| list[places[i] as int])
}

/// The entries of a list at some places.
pub fn pick<A: Copy>(list: &[A], places: &[usize]) -> (r: Vec<A>)
    requires
        forall|i: int| 0 <= i < places@.len() ==> (#[trigger] places@[i]) < list@.len(),
    ensures
        r@ == picked(list@, places@),
{
    let mut out: Vec<A> = Vec::new();
    let mut i: usize = 0;
    while i < places.len()
        invariant
            forall|k: int| 0 <= k < places@.len() ==> (#[trigger] places@[k]) < list@.len(),
            i <= places.len(),
            out@.len() == i,
            forall|k: int| 0 <= k < i ==> #[trigger] out@[k] == list@[places@[k] as int],
        decreases places.len() - i,
    {
        assert(places@[i as int] < list@.len());
        out.push(list[places[i]]);
        i = i + 1;
    }
    assert(out@ =~= picked(list@, places@));
    out
}

/// The eras of the samples at some places, if there are eras.
pub open spec fn picked_eras(eras: Option<&[u16]>, places: Seq<usize>, r: Option<&[u16]>) -> bool {
    match eras {
        Some(list) => r is Some && r->0@ == picked(list@, places),
        None => r is None,
    }
}

/// What is measured of a candidate whose predictions for all samples are known,
/// where `train_idx` says which samples are the data of the training and
/// `val_idx` which are held back: the loss on the data held back, the loss on
/// the data of the training, and the further measures on the data held back.
pub fn compute_metrics_by_indices<V: Number, W, F: Functions<V>, R, I>(
    task_type: TaskType,
    predictions: &[V],
    targets: &[V],
    train_idx: &[usize],
    val_idx: &[usize],
    metric: &Metric<V>,
    eras: Option<&[u16]>,
    roc: &R,
    ic: &I,
    f: &F,
) -> (r: (V, V, (Option<V>, Option<W>, Option<W>)))
    where R: Fn(&[V], &[V]) -> W, I: Fn(&[V], &[V], Option<&[u16]>) -> W
    requires
        crate::number::arithmetic::<V>(),
        crate::functions::computes(f),
        predictions@.len() == targets@.len(),
        eras is Some ==> eras->0@.len() == targets@.len(),
        forall|i: int| 0 <= i < train_idx@.len() ==> (#[trigger] train_idx@[i]) < targets@.len(),
        forall|i: int| 0 <= i < val_idx@.len() ==> (#[trigger] val_idx@[i]) < targets@.len(),
        *metric matches Metric::MultiClassLogLoss { n_classes } ==> train_idx@.len() * n_classes
            <= usize::MAX && val_idx@.len() * n_classes <= usize::MAX,
        forall|p: &[V], t: &[V]| #[trigger] call_requires(*roc, (p, t)),
        forall|p: &[V], t: &[V], e: Option<&[u16]>| #[trigger] call_requires(*ic, (p, t, e)),
    ensures
        r.0 == metric.value(
            f,
            picked(predictions@, val_idx@),
            picked(targets@, val_idx@),
        ),
        r.1 == metric.value(
            f,
            picked(predictions@, train_idx@),
            picked(targets@, train_idx@),
        ),
        exists|p: &[V], t: &[V], e: Option<&[u16]>|
            {
                &&& p@ == picked(predictions@, val_idx@)
                &&& t@ == picked(targets@, val_idx@)
                &&& picked_eras(eras, val_idx@, e)
                &&& #[trigger] measures(f, task_type, p, t, e, roc, ic, r.2)
            },
{
    let train_preds = pick(predictions, train_idx);
    let train_targets = pick(targets, train_idx);
    let train_metric: V = metric.compute(train_preds.as_slice(), train_targets.as_slice(), f);
    let val_preds = pick(predictions, val_idx);
    let val_targets = pick(targets, val_idx);
    let val_metric: V = metric.compute(val_preds.as_slice(), val_targets.as_slice(), f);
    let picked_list: Vec<u16> = match eras {
        Some(list) => pick(list, val_idx),
        None => Vec::new(),
    };
    let val_eras: Option<&[u16]> = match eras {
        Some(_) => Some(picked_list.as_slice()),
        None => None,
    };
    let p = val_preds.as_slice();
    let t = val_targets.as_slice();
    let more = compute_additional_metrics(task_type, p, t, val_eras, roc, ic, f);
    assert(picked_eras(eras, val_idx@, val_eras));
    let r = (val_metric, train_metric, more);
    proof {
        assert(p@ == picked(predictions@, val_idx@));
        assert(t@ == picked(targets@, val_idx@));
        assert(measures(f, task_type, p, t, val_eras, roc, ic, r.2));
    }
    r
}

/// The values that are there.
pub open spec fn present<A>(list: Seq<Option<A>>) -> Seq<A>
    decreases list.len(),
{
    if list.len() == 0 {
        Seq::empty()
    } else {
        match list.last() {
            Some(v) => present(list.drop_last()).push(v),
            None => present(list.drop_last()),
        }
    }
}

/// The mean of the values that are there, if there are any.
pub open spec fn mean_of_present<V: Number, F: Functions<V>>(
    f: &F,
    list: Seq<Option<V>>,
) -> Option<V> {
    if present(list).len() == 0 {
        None
    } else {
        Some(crate::tuner::metrics::mean(f, present(list)))
    }
}

/// The number of trees of all results.
pub open spec fn tree_total<V, W>(results: Seq<EvalMetrics<V, W>>) -> nat
    decreases results.len(),
{
    if results.len() == 0 {
        0
    } else {
        tree_total(results.drop_last()) + results.last().num_trees as nat
    }
}

/// Several results as one: the means, and of the scores the means of those
/// that are there.
pub open spec fn aggregated<V: Number, W: Number, F: Functions<V>, G: Functions<W>>(
    f: &F,
    g: &G,
    results: Seq<EvalMetrics<V, W>>,
) -> EvalMetrics<V, W> {
    if results.len() == 0 {
        EvalMetrics {
            val_metric: crate::functions::largest_of::<V, F>(f),
            train_metric: crate::functions::largest_of::<V, F>(f),
            num_trees: 0,
            f1_score: None,
            roc_auc: None,
            rank_ic: None,
        }
    } else {
        EvalMetrics {
            val_metric: crate::tuner::metrics::mean(
                f,
                results.map_values(|r: EvalMetrics<V, W>| r.val_metric),
            ),
            train_metric: crate::tuner::metrics::mean(
                f,
                results.map_values(|r: EvalMetrics<V, W>| r.train_metric),
            ),
            num_trees: (tree_total(results) / results.len()) as usize,
            f1_score: mean_of_present(
                f,
                results.map_values(|r: EvalMetrics<V, W>| r.f1_score),
            ),
            roc_auc: mean_of_present(g, results.map_values(|r: EvalMetrics<V, W>| r.roc_auc)),
            rank_ic: mean_of_present(g, results.map_values(|r: EvalMetrics<V, W>| r.rank_ic)),
        }
    }
}

/// The mean of the values that are there, if there are any.
fn mean_present<V: Number, F: Functions<V>>(list: &[Option<V>], f: &F) -> (r: Option<V>)
    requires
        crate::number::arithmetic::<V>(),
        crate::functions::computes(f),
    ensures
        r == mean_of_present(f, list@),
{
    let mut there: Vec<V> = Vec::new();
    let mut i: usize = 0;
    assert(list@.take(0) =~= Seq::empty());
    while i < list.len()
        invariant
            i <= list.len(),
            there@ == present(list@.take(i as int)),
        decreases list.len() - i,
    {
        assert(list@.take(i + 1).drop_last() =~= list@.take(i as int));
        if let Some(v) = list[i] {
            there.push(v);
        }
        i = i + 1;
    }
    assert(list@.take(i as int) =~= list@);
    if there.len() == 0 {
        None
    } else {
        let n: V = f.count(there.len());
        Some(sum(there.as_slice()) / n)
    }
}

/// Several results as one.
pub fn aggregate_fold_results<V: Number, W: Number, F: Functions<V>, G: Functions<W>>(
    results: &[EvalMetrics<V, W>],
    f: &F,
    g: &G,
) -> (r: EvalMetrics<V, W>)
    requires
        crate::number::arithmetic::<V>(),
        crate::number::arithmetic::<W>(),
        crate::functions::computes(f),
        crate::functions::computes(g),
        tree_total(results@) <= usize::MAX,
    ensures
        r == aggregated(f, g, results@),
{
    let k: usize = results.len();
    if k == 0 {
        let worst: V = f.largest();
        return EvalMetrics {
            val_metric: worst,
            train_metric: worst,
            num_trees: 0,
            f1_score: None,
            roc_auc: None,
            rank_ic: None,
        };
    }
    let mut vals: Vec<V> = Vec::new();
    let mut trains: Vec<V> = Vec::new();
    let mut f1s: Vec<Option<V>> = Vec::new();
    let mut rocs: Vec<Option<W>> = Vec::new();
    let mut ics: Vec<Option<W>> = Vec::new();
    let mut trees: usize = 0;
    let mut i: usize = 0;
    assert(results@.take(0) =~= Seq::empty());
    while i < k
        invariant
            k == results@.len(),
            tree_total(results@) <= usize::MAX,
            i <= k,
            vals@.len() == i,
            trains@.len() == i,
            f1s@.len() == i,
            rocs@.len() == i,
            ics@.len() == i,
            forall|j: int| 0 <= j < i ==> #[trigger] vals@[j] == results@[j].val_metric,
            forall|j: int| 0 <= j < i ==> #[trigger] trains@[j] == results@[j].train_metric,
            forall|j: int| 0 <= j < i ==> #[trigger] f1s@[j] == results@[j].f1_score,
            forall|j: int| 0 <= j < i ==> #[trigger] rocs@[j] == results@[j].roc_auc,
            forall|j: int| 0 <= j < i ==> #[trigger] ics@[j] == results@[j].rank_ic,
            trees == tree_total(results@.take(i as int)),
        decreases k - i,
    {
        proof {
            assert(results@.take(i + 1).drop_last() =~= results@.take(i as int));
            lemma_tree_total_grows(results@, i + 1);
        }
        vals.push(results[i].val_metric);
        trains.push(results[i].train_metric);
        f1s.push(results[i].f1_score);
        rocs.push(results[i].roc_auc);
        ics.push(results[i].rank_ic);
        trees = trees + results[i].num_trees;
        i = i + 1;
    }
    proof {
        assert(results@.take(i as int) =~= results@);
        assert(vals@ =~= results@.map_values(|r: EvalMetrics<V, W>| r.val_metric));
        assert(trains@ =~= results@.map_values(|r: EvalMetrics<V, W>| r.train_metric));
        assert(f1s@ =~= results@.map_values(|r: EvalMetrics<V, W>| r.f1_score));
        assert(rocs@ =~= results@.map_values(|r: EvalMetrics<V, W>| r.roc_auc));
        assert(ics@ =~= results@.map_values(|r: EvalMetrics<V, W>| r.rank_ic));
    }
    let n: V = f.count(k);
    EvalMetrics {
        val_metric: sum(vals.as_slice()) / n,
        train_metric: sum(trains.as_slice()) / n,
        num_trees: trees / k,
        f1_score: mean_present(f1s.as_slice(), f),
        roc_auc: mean_present(rocs.as_slice(), g),
        rank_ic: mean_present(ics.as_slice(), g),
    }
}

proof fn lemma_tree_total_grows<V, W>(results: Seq<EvalMetrics<V, W>>, n: int)
    requires
        0 <= n <= results.len(),
    ensures
        tree_total(results.take(n)) <= tree_total(results),
    decreases results.len(),
{
    if n < results.len() {
        lemma_tree_total_grows(results.drop_last(), n);
        assert(results.drop_last().take(n) =~= results.take(n));
    } else {
        assert(results.take(n) =~= results);
    }
}

/// Results for the first parts of the data, without an error.
pub open spec fn folds_give<V, W, E>(evaluate: &E, results: Seq<EvalMetrics<V, W>>) -> bool where
    E: Fn(usize) -> Result<EvalMetrics<V, W>>,
 {
    forall|i: int|
        0 <= i < results.len() ==> call_ensures(
            *evaluate,
            (i as usize,),
            Ok::<EvalMetrics<V, W>, TreeBoostError>(#[trigger] results[i]),
        )
}

/// The result of evaluating on each of `k` parts of the data: the results as
/// one, or the first error.
pub open spec fn kfold_gives<V: Number, W: Number, F: Functions<V>, G: Functions<W>, E>(
    f: &F,
    g: &G,
    k: usize,
    evaluate: &E,
    results: Seq<EvalMetrics<V, W>>,
    r: Result<EvalMetrics<V, W>>,
) -> bool where E: Fn(usize) -> Result<EvalMetrics<V, W>> {
    &&& folds_give(evaluate, results)
    &&& match r {
        Ok(whole) => results.len() == k && whole == aggregated(f, g, results),
        Err(e) => results.len() < k && call_ensures(
            *evaluate,
            (results.len() as usize,),
            Err::<EvalMetrics<V, W>, TreeBoostError>(e),
        ),
    }
}

/// Evaluates on each of `k` parts of the data in turn.
pub fn evaluate_kfold<V: Number, W: Number, F: Functions<V>, G: Functions<W>, E>(
    k: usize,
    evaluate: &E,
    f: &F,
    g: &G,
) -> (r: Result<EvalMetrics<V, W>>)
    where E: Fn(usize) -> Result<EvalMetrics<V, W>>
    requires
        crate::number::arithmetic::<V>(),
        crate::number::arithmetic::<W>(),
        crate::functions::computes(f),
        crate::functions::computes(g),
        forall|i: usize| i < k ==> #[trigger] call_requires(*evaluate, (i,)),
        forall|results: Seq<EvalMetrics<V, W>>|
            results.len() == k && #[trigger] folds_give(evaluate, results) ==> tree_total(results)
                <= usize::MAX,
    ensures
        exists|results: Seq<EvalMetrics<V, W>>| #[trigger]
            kfold_gives(f, g, k, evaluate, results, r),
{
    let mut results: Vec<EvalMetrics<V, W>> = Vec::new();
    let mut i: usize = 0;
    while i < k
        invariant
            forall|n: usize| n < k ==> #[trigger] call_requires(*evaluate, (n,)),
            i <= k,
            results@.len() == i,
            folds_give(evaluate, results@),
        decreases k - i,
    {
        match evaluate(i) {
            Ok(metrics) => results.push(metrics),
            Err(e) => {
                assert(kfold_gives(f, g, k, evaluate, results@, Err(e)));
                return Err(e);
            },
        }
        i = i + 1;
    }
    let whole = aggregate_fold_results(results.as_slice(), f, g);
    assert(kfold_gives(f, g, k, evaluate, results@, Ok(whole)));
    Ok(whole)
}

/// Whether the data are divided by eras: only where trials are compared by the
/// correlation of the ranks, the data have eras, and they have not been divided
/// before.
pub fn uses_era_split(metric: OptimizationMetric, has_eras: bool, divided_before: bool) -> (r: bool)
    ensures
        r == (metric is RankIc && has_eras && !divided_before),
{
    matches!(metric, OptimizationMetric::RankIc) && has_eras && !divided_before
}

/// The measure of a model that predicts intervals: their width, or the largest
/// number, if the model has none.
pub fn conformal_metrics<V: Number, W: Number, F: Functions<V>>(
    quantile: Option<V>,
    loss: V,
    num_trees: usize,
    more: (Option<V>, Option<W>, Option<W>),
    f: &F,
) -> (r: EvalMetrics<V, W>)
    requires
        crate::functions::computes(f),
    ensures
        r == (EvalMetrics {
            val_metric: match quantile {
                Some(q) => q,
                None => crate::functions::largest_of::<V, F>(f),
            },
            train_metric: loss,
            num_trees,
            f1_score: more.0,
            roc_auc: more.1,
            rank_ic: more.2,
        }),
{
    let val_metric: V = match quantile {
        Some(q) => q,
        None => f.largest(),
    };
    EvalMetrics {
        val_metric,
        train_metric: loss,
        num_trees,
        f1_score: more.0,
        roc_auc: more.1,
        rank_ic: more.2,
    }
}

/// What is measured of a model from its predictions for the data of the
/// training and for the data held back.
pub fn compute_eval_metrics<V: Number, W, F: Functions<V>, R, I>(
    task_type: TaskType,
    train: (&[V], &[V]),
    val: (&[V], &[V]),
    eras: Option<&[u16]>,
    num_trees: usize,
    metric: &Metric<V>,
    roc: &R,
    ic: &I,
    f: &F,
) -> (r: EvalMetrics<V, W>)
    where R: Fn(&[V], &[V]) -> W, I: Fn(&[V], &[V], Option<&[u16]>) -> W
    requires
        crate::number::arithmetic::<V>(),
        crate::functions::computes(f),
        *metric matches Metric::MultiClassLogLoss { n_classes } ==> train.1@.len() * n_classes
            <= usize::MAX && val.1@.len() * n_classes <= usize::MAX,
        call_requires(*roc, (val.0, val.1)),
        call_requires(*ic, (val.0, val.1, eras)),
    ensures
        r.val_metric == metric.value(f, val.0@, val.1@),
        r.train_metric == metric.value(f, train.0@, train.1@),
        r.num_trees == num_trees,
        measures(
            f,
            task_type,
            val.0,
            val.1,
            eras,
            roc,
            ic,
            (r.f1_score, r.roc_auc, r.rank_ic),
        ),
{
    let train_metric: V = metric.compute(train.0, train.1, f);
    let val_metric: V = metric.compute(val.0, val.1, f);
    let more = compute_additional_metrics(task_type, val.0, val.1, eras, roc, ic, f);
    EvalMetrics {
        val_metric,
        train_metric,
        num_trees,
        f1_score: more.0,
        roc_auc: more.1,
        rank_ic: more.2,
    }
}

/// What is measured of a model that predicts intervals, from its predictions
/// for some data: the width of the intervals, and its loss on the data.
pub fn extract_conformal_result<V: Number, W: Number, F: Functions<V>, R, I>(
    task_type: TaskType,
    quantile: Option<V>,
    predictions: &[V],
    targets: &[V],
    eras: Option<&[u16]>,
    num_trees: usize,
    roc: &R,
    ic: &I,
    f: &F,
) -> (r: EvalMetrics<V, W>)
    where R: Fn(&[V], &[V]) -> W, I: Fn(&[V], &[V], Option<&[u16]>) -> W
    requires
        crate::number::arithmetic::<V>(),
        crate::functions::computes(f),
        call_requires(*roc, (predictions, targets)),
        call_requires(*ic, (predictions, targets, eras)),
    ensures
        r.val_metric == (match quantile {
            Some(q) => q,
            None => crate::functions::largest_of::<V, F>(f),
        }),
        r.train_metric == (match task_type {
            TaskType::BinaryClassification => Metric::<V>::BinaryLogLoss,
            _ => Metric::Mse,
        }).value(f, predictions@, targets@),
        r.num_trees == num_trees,
        measures(
            f,
            task_type,
            predictions,
            targets,
            eras,
            roc,
            ic,
            (r.f1_score, r.roc_auc, r.rank_ic),
        ),
{
    let metric: Metric<V> = select_metric(task_type);
    let loss: V = metric.compute(predictions, targets, f);
    let more = compute_additional_metrics(task_type, predictions, targets, eras, roc, ic, f);
    conformal_metrics(quantile, loss, num_trees, more, f)
}

/// The complaint about a model that predicts no intervals.
pub open spec fn no_intervals_text() -> Seq<char> {
    "Conformal evaluation is not supported for this model type. Use EvalStrategy::Holdout for generic model tuning."@
}

/// Checks that a model predicts intervals.
pub fn check_conformal_support(supported: bool) -> (r: Result<()>)
    ensures
        match r {
            Ok(_) => supported,
            Err(e) => !supported && e.is_config(no_intervals_text()),
        },
{
    if supported {
        Ok(())
    } else {
        Err(
            TreeBoostError::Config(
                "Conformal evaluation is not supported for this model type. Use EvalStrategy::Holdout for generic model tuning.".to_owned(),
            ),
        )
    }
}

/// A prediction stands for the positive class exactly if it is not negative.
pub proof fn law_positive_predictions<V: Number, F: Functions<V>>(
    worth: spec_fn(V) -> real,
    f: &F,
    prediction: V,
)
    requires
        crate::exact::exact(worth),
        crate::exact::distinct::<V>(),
        crate::exact::powers(f, worth),
    ensures
        predicted_positive(f, prediction) <==> worth(prediction) >= 0real,
{
    let other = crate::number::negated(prediction);
    let g = worth(crate::functions::exp_of(f, other));
    crate::exact::lemma_exp_sign(f, worth, other);
    crate::exact::lemma_quotient(1real, 1real + g);
    let s = 1real / (1real + g);
    assert(s * (1real + g) == s + s * g) by (nonlinear_arith);
    let half = worth(crate::number::ratio::<V>(1, 2));
    crate::exact::lemma_quotient(1real, 2real);
    assert(half * 2real == 1real);
    assert(s > 0real) by (nonlinear_arith)
        requires
            s * (1real + g) == 1real,
            g > 0real,
    ;
    let d = g - 1real;
    assert(s * g == s + s * d) by (nonlinear_arith)
        requires
            d == g - 1real,
    ;
    if d <= 0real {
        assert(s * d <= 0real) by (nonlinear_arith)
            requires
                s > 0real,
                d <= 0real,
        ;
    } else {
        assert(s * d > 0real) by (nonlinear_arith)
            requires
                s > 0real,
                d > 0real,
        ;
    }
}

proof fn lemma_f1_of_shares(f1: real, x: real, y: real, a: real, b: real, tp: real)
    requires
        x * a == tp,
        y * b == tp,
        f1 * (x + y) == 2real * x * y,
    ensures
        tp * (f1 * (a + b)) == tp * (2real * tp),
{
    let c = a * b;
    assert((f1 * (x + y)) * c == f1 * ((x + y) * c)) by (nonlinear_arith);
    assert((x + y) * c == x * c + y * c) by (nonlinear_arith);
    assert(x * (a * b) == (x * a) * b) by (nonlinear_arith);
    assert(y * (a * b) == (y * b) * a) by (nonlinear_arith);
    assert((2real * x * y) * (a * b) == 2real * ((x * a) * (y * b))) by (nonlinear_arith);
    assert(f1 * (tp * b + tp * a) == tp * (f1 * (a + b))) by (nonlinear_arith);
    assert(2real * (tp * tp) == tp * (2real * tp)) by (nonlinear_arith);
}

/// The harmonic mean of precision and recall is twice the hits over the hits and
/// all that was predicted or actual.
pub proof fn law_f1_counts<V: Number, F: Functions<V>>(
    worth: spec_fn(V) -> real,
    f: &F,
    predictions: Seq<V>,
    targets: Seq<V>,
)
    requires
        crate::exact::exact(worth),
        crate::exact::counts(f, worth),
        predictions.len() <= usize::MAX,
    ensures
        ({
            let n = predictions.len();
            let tp = outcomes(f, predictions, targets, n, true, true) as real;
            let fp = outcomes(f, predictions, targets, n, true, false) as real;
            let missed = outcomes(f, predictions, targets, n, false, true) as real;
            worth(f1_of(f, predictions, targets)) * (2real * tp + fp + missed) == 2real * tp
        }),
{
    let n = predictions.len();
    law_outcomes_add_up(f, predictions, targets, n);
    let hit = outcomes(f, predictions, targets, n, true, true);
    let wrong = outcomes(f, predictions, targets, n, true, false);
    let lost = outcomes(f, predictions, targets, n, false, true);
    let (tp, fp, missed) = (hit as real, wrong as real, lost as real);
    let (a, b) = (tp + fp, tp + missed);
    let p = share_of::<V, F>(f, hit, wrong);
    let r = share_of::<V, F>(f, hit, lost);
    let f1 = worth(f1_of(f, predictions, targets));
    if hit == 0 {
        if a > 0real {
            crate::exact::lemma_quotient(0real, a);
            crate::exact::lemma_cancel(worth(p), 0real, a);
        }
        if b > 0real {
            crate::exact::lemma_quotient(0real, b);
            crate::exact::lemma_cancel(worth(r), 0real, b);
        }
        assert(a * 0real == 0real && b * 0real == 0real) by (nonlinear_arith);
        assert(worth(p) == 0real && worth(r) == 0real);
        assert(f1 == 0real);
        let rest = 2real * tp + fp + missed;
        assert(0real * rest == 0real) by (nonlinear_arith);
    } else {
        let (x, y) = (worth(p), worth(r));
        crate::exact::lemma_quotient(tp, a);
        crate::exact::lemma_quotient(tp, b);
        assert(x * a == tp && y * b == tp);
        assert(x > 0real) by (nonlinear_arith)
            requires
                x * a == tp,
                tp > 0real,
                a > 0real,
        ;
        assert(y > 0real) by (nonlinear_arith)
            requires
                y * b == tp,
                tp > 0real,
                b > 0real,
        ;
        crate::exact::lemma_quotient(2real * x * y, x + y);
        assert(f1 * (x + y) == 2real * x * y);
        lemma_f1_of_shares(f1, x, y, a, b, tp);
        crate::exact::lemma_cancel(f1 * (a + b), 2real * tp, tp);
        assert(a + b == 2real * tp + fp + missed);
    }
}

/// The results of the parts as one are their means: where all parts agree on a
/// loss, that is the loss, and more parts are weighed by their number.
pub proof fn law_parts_are_averaged<V: Number, W: Number, F: Functions<V>, G: Functions<W>>(
    worth: spec_fn(V) -> real,
    f: &F,
    g: &G,
    a: Seq<EvalMetrics<V, W>>,
    b: Seq<EvalMetrics<V, W>>,
)
    requires
        crate::exact::exact(worth),
        crate::exact::counts(f, worth),
        a.len() > 0,
        b.len() > 0,
        a.len() + b.len() <= usize::MAX,
    ensures
        ({
            let (m, n) = (a.len() as real, b.len() as real);
            let (x, y, z) = (aggregated(f, g, a), aggregated(f, g, b), aggregated(f, g, a + b));
            &&& worth(z.val_metric) * (m + n) == worth(x.val_metric) * m + worth(y.val_metric) * n
            &&& worth(z.train_metric) * (m + n) == worth(x.train_metric) * m + worth(
                y.train_metric,
            ) * n
        }),
{
    let val = |r: EvalMetrics<V, W>| r.val_metric;
    let train = |r: EvalMetrics<V, W>| r.train_metric;
    assert((a + b).map_values(val) =~= a.map_values(val) + b.map_values(val));
    assert((a + b).map_values(train) =~= a.map_values(train) + b.map_values(train));
    crate::tuner::metrics::law_mean_is_weighed(
        worth,
        f,
        a.map_values(val),
        b.map_values(val),
        a[0].val_metric,
    );
    crate::tuner::metrics::law_mean_is_weighed(
        worth,
        f,
        a.map_values(train),
        b.map_values(train),
        a[0].train_metric,
    );
}

/// A single part has its own losses, scores and number of trees.
pub proof fn law_one_part_is_itself<V: Number, W: Number, F: Functions<V>, G: Functions<W>>(
    worth: spec_fn(V) -> real,
    f: &F,
    g: &G,
    part: EvalMetrics<V, W>,
)
    requires
        crate::exact::exact(worth),
        crate::exact::counts(f, worth),
    ensures
        ({
            let whole = aggregated(f, g, seq![part]);
            &&& worth(whole.val_metric) == worth(part.val_metric)
            &&& worth(whole.train_metric) == worth(part.train_metric)
            &&& whole.num_trees == part.num_trees
            &&& whole.f1_score is Some <==> part.f1_score is Some
            &&& whole.roc_auc is Some <==> part.roc_auc is Some
            &&& whole.rank_ic is Some <==> part.rank_ic is Some
            &&& part.f1_score is Some ==> worth(whole.f1_score->0) == worth(part.f1_score->0)
        }),
{
    let one = seq![part];
    let val = |r: EvalMetrics<V, W>| r.val_metric;
    let train = |r: EvalMetrics<V, W>| r.train_metric;
    let f1 = |r: EvalMetrics<V, W>| r.f1_score;
    let roc = |r: EvalMetrics<V, W>| r.roc_auc;
    let ic = |r: EvalMetrics<V, W>| r.rank_ic;
    assert(one.map_values(val) =~= seq![part.val_metric]);
    assert(one.map_values(train) =~= seq![part.train_metric]);
    assert(one.map_values(f1) =~= seq![part.f1_score]);
    assert(one.map_values(roc) =~= seq![part.roc_auc]);
    assert(one.map_values(ic) =~= seq![part.rank_ic]);
    lemma_present_of_one(part.f1_score);
    lemma_present_of_one(part.roc_auc);
    lemma_present_of_one(part.rank_ic);
    let (a, b) = (seq![part.val_metric], seq![part.train_metric]);
    crate::tuner::metrics::law_mean_is_weighed(worth, f, a, b, part.val_metric);
    crate::tuner::metrics::law_mean_is_weighed(worth, f, a, b, part.train_metric);
    if part.f1_score is Some {
        crate::tuner::metrics::law_mean_is_weighed(worth, f, a, b, part.f1_score->0);
    }
    assert(one.drop_last() =~= Seq::empty());
    assert(tree_total(one.drop_last()) == 0);
    assert(one.last() == part);
    assert(tree_total(one) == part.num_trees);
}

proof fn lemma_present_of_one<A>(v: Option<A>)
    ensures
        v is Some ==> present(seq![v]) == seq![v->0],
        v is None ==> present(seq![v]).len() == 0,
{
    let one = seq![v];
    assert(one.drop_last() =~= Seq::<Option<A>>::empty());
    assert(present(one.drop_last()) =~= Seq::<A>::empty());
    assert(one.last() == v);
    if v is Some {
        assert(Seq::<A>::empty().push(v->0) =~= seq![v->0]);
    }
}

} // verus!
