//! The trials of a search.

use crate::functions::{show_number, Functions};
use crate::number::{is_missing, Number};
use crate::text::decimal_string;
use crate::tuner::trial::TrialResult;
use vstd::prelude::*;

verus! {

/// By what trials are compared.
#[derive(Debug, Clone, Copy, PartialEq, Eq, Structural)]
pub enum OptimizationMetric {
    /// The loss on the data held back; lower is better.
    ValidationLoss,
    /// The harmonic mean of precision and recall; higher is better.
    F1Score,
    /// The area under the receiver operating characteristic; higher is better.
    RocAuc,
    /// The correlation of the ranks; higher is better.
    RankIc,
}

/// A score is better than another; any is better than none.
pub open spec fn scores_higher<V: Number>(new: Option<V>, best: Option<V>) -> bool {
    match (new, best) {
        (Some(a), Some(b)) => crate::number::above(a, b),
        (Some(_), None) => true,
        _ => false,
    }
}

/// A score is better than another; any is better than none, and a number is
/// better than a missing one.
pub open spec fn present_scores_higher<V: Number>(new: Option<V>, best: Option<V>) -> bool {
    match (new, best) {
        (Some(a), Some(b)) => !crate::number::missing(a) && (crate::number::missing(b)
            || crate::number::above(a, b)),
        (Some(_), None) => true,
        _ => false,
    }
}

/// A trial is better than another.
pub open spec fn better<V: Number, W: Number>(
    metric: OptimizationMetric,
    new: TrialResult<V, W>,
    best: TrialResult<V, W>,
) -> bool {
    match metric {
        OptimizationMetric::ValidationLoss => crate::number::below(new.val_loss, best.val_loss),
        OptimizationMetric::F1Score => present_scores_higher(new.f1_score, best.f1_score),
        OptimizationMetric::RocAuc => scores_higher(new.roc_auc, best.roc_auc),
        OptimizationMetric::RankIc => scores_higher(new.rank_ic, best.rank_ic),
    }
}

/// The place of the best trial: the first, and from there on every one that is
/// better than the best so far.
pub open spec fn best_of<V: Number, W: Number>(
    metric: OptimizationMetric,
    trials: Seq<TrialResult<V, W>>,
) -> Option<int>
    decreases trials.len(),
{
    if trials.len() == 0 {
        None
    } else {
        match best_of(metric, trials.drop_last()) {
            Some(i) => if better(metric, trials.last(), trials[i]) {
                Some(trials.len() - 1)
            } else {
                Some(i)
            },
            None => Some(trials.len() - 1),
        }
    }
}

/// The best trial has a place in the list, if there are trials at all.
proof fn lemma_best_in_range<V: Number, W: Number>(
    metric: OptimizationMetric,
    trials: Seq<TrialResult<V, W>>,
)
    ensures
        trials.len() == 0 <==> best_of(metric, trials) is None,
        best_of(metric, trials) matches Some(i) ==> 0 <= i < trials.len(),
    decreases trials.len(),
{
    if trials.len() > 0 {
        lemma_best_in_range(metric, trials.drop_last());
    }
}

/// "Better" is transitive.
pub proof fn law_better_is_transitive<V: Number, W: Number>(
    metric: OptimizationMetric,
    a: TrialResult<V, W>,
    b: TrialResult<V, W>,
    c: TrialResult<V, W>,
)
    requires
        crate::number::ordered::<V>(),
        crate::number::ordered::<W>(),
        crate::number::mirrored::<V>(),
        better(metric, a, b),
        better(metric, b, c),
    ensures
        better(metric, a, c),
{
    match metric {
        OptimizationMetric::ValidationLoss => {
            assert(crate::number::above(c.val_loss, b.val_loss));
            assert(crate::number::above(b.val_loss, a.val_loss));
        },
        OptimizationMetric::F1Score => {},
        OptimizationMetric::RocAuc => {},
        OptimizationMetric::RankIc => {},
    }
}

/// No trial is better than the best one.
pub proof fn law_best_is_not_beaten<V: Number, W: Number>(
    metric: OptimizationMetric,
    trials: Seq<TrialResult<V, W>>,
    k: int,
)
    requires
        crate::number::ordered::<V>(),
        crate::number::ordered::<W>(),
        crate::number::mirrored::<V>(),
        0 <= k < trials.len(),
    ensures
        best_of(metric, trials) is Some,
        !better(metric, trials[k], trials[best_of(metric, trials)->0]),
    decreases trials.len(),
{
    lemma_best_in_range(metric, trials);
    let rest = trials.drop_last();
    lemma_best_in_range(metric, rest);
    let b = best_of(metric, trials)->0;
    if k < rest.len() {
        law_best_is_not_beaten(metric, rest, k);
        let before = best_of(metric, rest)->0;
        assert(rest[k] == trials[k] && rest[before] == trials[before]);
        if b == trials.len() - 1 && better(metric, trials[k], trials[b]) {
            law_better_is_transitive(metric, trials[k], trials[b], trials[before]);
        }
    } else if b == k {
        if better(metric, trials[k], trials[k]) {
            lemma_not_better_than_itself(metric, trials[k]);
        }
    } else {
        assert(rest[b] == trials[b]);
    }
}

/// No trial is better than itself.
proof fn lemma_not_better_than_itself<V: Number, W: Number>(
    metric: OptimizationMetric,
    t: TrialResult<V, W>,
)
    requires
        crate::number::ordered::<V>(),
        crate::number::ordered::<W>(),
        crate::number::mirrored::<V>(),
    ensures
        !better(metric, t, t),
{
    assert(!crate::number::above(t.val_loss, t.val_loss));
}

/// The number by which a trial is compared is not missing. Where trials are
/// compared by their harmonic mean, it may be: it then counts as the least.
pub open spec fn judged<V: Number, W: Number>(
    metric: OptimizationMetric,
    t: TrialResult<V, W>,
) -> bool {
    match metric {
        OptimizationMetric::ValidationLoss => !crate::number::missing(t.val_loss),
        OptimizationMetric::F1Score => true,
        OptimizationMetric::RocAuc => t.roc_auc matches Some(v) ==> !crate::number::missing(v),
        OptimizationMetric::RankIc => t.rank_ic matches Some(v) ==> !crate::number::missing(v),
    }
}

/// What is better than a trial is better than every trial that is not better
/// than that.
proof fn lemma_better_than_no_better<V: Number, W: Number>(
    metric: OptimizationMetric,
    new: TrialResult<V, W>,
    best: TrialResult<V, W>,
    other: TrialResult<V, W>,
)
    requires
        crate::number::ranked::<V>(),
        crate::number::ranked::<W>(),
        crate::number::mirrored::<V>(),
        judged(metric, new),
        judged(metric, best),
        judged(metric, other),
        better(metric, new, best),
        !better(metric, other, best),
    ensures
        better(metric, new, other),
{
    match metric {
        OptimizationMetric::ValidationLoss => {
            assert(crate::number::above(best.val_loss, new.val_loss));
            assert(!crate::number::above(best.val_loss, other.val_loss)) by {
                assert(!crate::number::below(other.val_loss, best.val_loss));
            }
            assert(crate::number::above(other.val_loss, new.val_loss));
            assert(crate::number::below(new.val_loss, other.val_loss));
        },
        OptimizationMetric::F1Score => {},
        OptimizationMetric::RocAuc => {},
        OptimizationMetric::RankIc => {},
    }
}

/// The best trial is the first among equals: it is better than every one before
/// it, so none of those equals it.
pub proof fn law_best_is_the_first<V: Number, W: Number>(
    metric: OptimizationMetric,
    trials: Seq<TrialResult<V, W>>,
    k: int,
)
    requires
        crate::number::ordered::<V>(),
        crate::number::ordered::<W>(),
        crate::number::ranked::<V>(),
        crate::number::ranked::<W>(),
        crate::number::mirrored::<V>(),
        forall|i: int| 0 <= i < trials.len() ==> judged(metric, #[trigger] trials[i]),
        best_of(metric, trials) matches Some(b) && 0 <= k < b,
    ensures
        better(metric, trials[best_of(metric, trials)->0], trials[k]),
    decreases trials.len(),
{
    lemma_best_in_range(metric, trials);
    let rest = trials.drop_last();
    lemma_best_in_range(metric, rest);
    let b = best_of(metric, trials)->0;
    assert(rest[k] == trials[k]);
    if b < trials.len() - 1 {
        assert forall|i: int| 0 <= i < rest.len() implies judged(metric, #[trigger] rest[i]) by {
            assert(rest[i] == trials[i]);
        }
        assert(rest[b] == trials[b]);
        law_best_is_the_first(metric, rest, k);
    } else {
        let p = best_of(metric, rest)->0;
        law_best_is_not_beaten(metric, rest, k);
        assert(rest[p] == trials[p]);
        lemma_better_than_no_better(metric, trials[b], trials[p], trials[k]);
    }
}

/// The place of the trial that stands for the rounds before `iteration`: of
/// the trials of those rounds, the first, and from there on every one that the
/// one so far is not better than.
pub open spec fn best_before<V: Number, W: Number>(
    metric: OptimizationMetric,
    trials: Seq<TrialResult<V, W>>,
    iteration: usize,
) -> Option<int>
    decreases trials.len(),
{
    if trials.len() == 0 {
        None
    } else {
        let so_far = best_before(metric, trials.drop_last(), iteration);
        if trials.last().iteration >= iteration {
            so_far
        } else {
            match so_far {
                Some(i) => if better(metric, trials[i], trials.last()) {
                    Some(i)
                } else {
                    Some(trials.len() - 1)
                },
                None => Some(trials.len() - 1),
            }
        }
    }
}

/// That trial has a place in the list.
proof fn lemma_before_in_range<V: Number, W: Number>(
    metric: OptimizationMetric,
    trials: Seq<TrialResult<V, W>>,
    iteration: usize,
)
    ensures
        best_before(metric, trials, iteration) matches Some(i) ==> 0 <= i < trials.len()
            && trials[i].iteration < iteration,
        best_before(metric, trials, iteration) is None ==> forall|k: int|
            0 <= k < trials.len() ==> (#[trigger] trials[k]).iteration >= iteration,
    decreases trials.len(),
{
    if trials.len() > 0 {
        let rest = trials.drop_last();
        lemma_before_in_range(metric, rest, iteration);
        if best_before(metric, trials, iteration) is None {
            assert forall|k: int| 0 <= k < trials.len() implies (
            #[trigger] trials[k]).iteration >= iteration by {
                if k < rest.len() {
                    assert(rest[k] == trials[k]);
                }
            }
        }
    }
}

/// A round has brought an improvement: the best trial is better than the one
/// that stands for the rounds before, or there were none.
pub open spec fn improves<V: Number, W: Number>(
    metric: OptimizationMetric,
    trials: Seq<TrialResult<V, W>>,
    iteration: usize,
) -> bool {
    match best_of(metric, trials) {
        Some(b) => match best_before(metric, trials, iteration) {
            Some(k) => better(metric, trials[b], trials[k]),
            None => true,
        },
        None => false,
    }
}

/// Without missing losses, no trial of the rounds before is better than the one
/// that stands for them.
proof fn lemma_before_is_not_beaten<V: Number, W: Number>(
    trials: Seq<TrialResult<V, W>>,
    iteration: usize,
    k: int,
)
    requires
        crate::number::ordered::<V>(),
        crate::number::ranked::<V>(),
        crate::number::mirrored::<V>(),
        forall|i: int|
            0 <= i < trials.len() ==> !crate::number::missing((#[trigger] trials[i]).val_loss),
        0 <= k < trials.len(),
        trials[k].iteration < iteration,
    ensures
        best_before(OptimizationMetric::ValidationLoss, trials, iteration) is Some,
        !crate::number::below(
            trials[k].val_loss,
            trials[best_before(
                OptimizationMetric::ValidationLoss,
                trials,
                iteration,
            )->0].val_loss,
        ),
    decreases trials.len(),
{
    let metric = OptimizationMetric::ValidationLoss;
    lemma_before_in_range(metric, trials, iteration);
    let rest = trials.drop_last();
    lemma_before_in_range(metric, rest, iteration);
    assert forall|i: int| 0 <= i < rest.len() implies !crate::number::missing(
        (#[trigger] rest[i]).val_loss,
    ) by {
        assert(rest[i] == trials[i]);
    }
    let b = best_before(metric, trials, iteration)->0;
    if k < rest.len() {
        assert(rest[k] == trials[k]);
        lemma_before_is_not_beaten(rest, iteration, k);
        let i = best_before(metric, rest, iteration)->0;
        assert(rest[i] == trials[i]);
        assert(!crate::number::above(trials[i].val_loss, trials[k].val_loss));
        if b == trials.len() - 1 {
            assert(!crate::number::below(trials[i].val_loss, trials[b].val_loss));
            assert(!crate::number::above(trials[b].val_loss, trials[i].val_loss));
            assert(!crate::number::above(trials[b].val_loss, trials[k].val_loss));
        }
    } else {
        if b == k {
            assert(!crate::number::above(trials[k].val_loss, trials[k].val_loss));
        } else {
            assert(rest[b] == trials[b]);
            assert(crate::number::below(trials[b].val_loss, trials[k].val_loss));
            assert(crate::number::above(trials[k].val_loss, trials[b].val_loss));
            if crate::number::below(trials[k].val_loss, trials[b].val_loss) {
                assert(crate::number::above(trials[b].val_loss, trials[k].val_loss));
                assert(crate::number::above(trials[k].val_loss, trials[k].val_loss));
            }
        }
    }
}

/// Where trials are compared by their loss and none is missing, a round has
/// brought an improvement exactly if the best trial is one of its own.
pub proof fn law_improvement_is_a_new_best<V: Number, W: Number>(
    trials: Seq<TrialResult<V, W>>,
    iteration: usize,
)
    requires
        crate::number::ordered::<V>(),
        crate::number::ordered::<W>(),
        crate::number::ranked::<V>(),
        crate::number::ranked::<W>(),
        crate::number::mirrored::<V>(),
        trials.len() > 0,
        forall|i: int|
            0 <= i < trials.len() ==> !crate::number::missing((#[trigger] trials[i]).val_loss),
        forall|i: int, j: int|
            0 <= i <= j < trials.len() ==> (#[trigger] trials[i]).iteration <= (
            #[trigger] trials[j]).iteration,
        trials.last().iteration <= iteration,
    ensures
        improves(OptimizationMetric::ValidationLoss, trials, iteration) <==> trials[best_of(
            OptimizationMetric::ValidationLoss,
            trials,
        )->0].iteration == iteration,
{
    let metric = OptimizationMetric::ValidationLoss;
    lemma_best_in_range(metric, trials);
    lemma_before_in_range(metric, trials, iteration);
    let b = best_of(metric, trials)->0;
    let last = trials.len() - 1;
    assert(trials[b].iteration <= trials[last].iteration);
    match best_before(metric, trials, iteration) {
        Some(k) => {
            if trials[b].iteration < iteration {
                lemma_before_is_not_beaten(trials, iteration, b);
            } else {
                assert(k < b) by {
                    if b <= k {
                        assert(trials[b].iteration <= trials[k].iteration);
                    }
                }
                law_best_is_the_first(metric, trials, k);
            }
        },
        None => {},
    }
}

/// The trials of a search, with the best of them.
#[derive(Debug, Clone)]
pub struct SearchHistory<V, W> {
    /// The trials, in the order in which they were added.
    pub trials: Vec<TrialResult<V, W>>,
    /// The place of the best trial.
    pub best_trial_idx: Option<usize>,
    /// By what trials are compared.
    pub optimization_metric: OptimizationMetric,
}

/// A trial has been added behind the others, and the best of them is known.
pub open spec fn adds<V: Number, W: Number>(
    before: SearchHistory<V, W>,
    result: TrialResult<V, W>,
    after: SearchHistory<V, W>,
) -> bool {
    &&& after.trials@ == before.trials@.push(result)
    &&& after.optimization_metric == before.optimization_metric
    &&& after.wf()
}

/// Trials have been added one after the other.
pub open spec fn adds_all<V: Number, W: Number>(
    before: SearchHistory<V, W>,
    results: Seq<TrialResult<V, W>>,
    after: SearchHistory<V, W>,
) -> bool
    decreases results.len(),
{
    if results.len() == 0 {
        after == before
    } else {
        exists|mid: SearchHistory<V, W>|
            adds_all(before, results.drop_last(), mid) && #[trigger] adds(
                mid,
                results.last(),
                after,
            )
    }
}

/// The trials are those that were added, in that order.
pub proof fn law_trials_are_those_added<V: Number, W: Number>(
    before: SearchHistory<V, W>,
    results: Seq<TrialResult<V, W>>,
    after: SearchHistory<V, W>,
)
    requires
        before.wf(),
        adds_all(before, results, after),
    ensures
        after.trials@ == before.trials@ + results,
        after.optimization_metric == before.optimization_metric,
        after.wf(),
    decreases results.len(),
{
    if results.len() > 0 {
        let mid = choose|mid: SearchHistory<V, W>|
            adds_all(before, results.drop_last(), mid) && #[trigger] adds(
                mid,
                results.last(),
                after,
            );
        law_trials_are_those_added(before, results.drop_last(), mid);
        assert(results =~= results.drop_last().push(results.last()));
    }
    assert(after.trials@ =~= before.trials@ + results);
}

/// Where trials are compared by their loss and none is missing, the best of
/// those added to an empty history is the first of the least loss: no loss is
/// less, and every earlier one is greater.
pub proof fn law_best_is_first_of_least_loss<V: Number, W: Number>(
    before: SearchHistory<V, W>,
    results: Seq<TrialResult<V, W>>,
    after: SearchHistory<V, W>,
)
    requires
        crate::number::ordered::<V>(),
        crate::number::ordered::<W>(),
        crate::number::ranked::<V>(),
        crate::number::ranked::<W>(),
        crate::number::mirrored::<V>(),
        crate::number::connected::<V>(),
        before.trials@.len() == 0,
        before.optimization_metric is ValidationLoss,
        before.wf(),
        results.len() > 0,
        forall|i: int|
            0 <= i < results.len() ==> !crate::number::missing((#[trigger] results[i]).val_loss),
        adds_all(before, results, after),
    ensures
        after.trials@ == results,
        after.best_trial_idx is Some,
        after.best_trial_idx->0 < results.len(),
        forall|i: int|
            0 <= i < results.len() ==> crate::number::at_most(
                results[after.best_trial_idx->0 as int].val_loss,
                (#[trigger] results[i]).val_loss,
            ),
        forall|i: int|
            0 <= i < after.best_trial_idx->0 ==> crate::number::below(
                results[after.best_trial_idx->0 as int].val_loss,
                (#[trigger] results[i]).val_loss,
            ),
{
    let metric = OptimizationMetric::ValidationLoss;
    law_trials_are_those_added(before, results, after);
    assert(after.trials@ =~= results);
    lemma_best_in_range(metric, results);
    let b = best_of(metric, results)->0;
    assert forall|i: int| 0 <= i < results.len() implies crate::number::at_most(
        results[b].val_loss,
        (#[trigger] results[i]).val_loss,
    ) by {
        law_best_is_not_beaten(metric, results, i);
        assert(!crate::number::missing(results[b].val_loss));
        assert(!crate::number::above(results[b].val_loss, results[i].val_loss)) by {
            assert(!crate::number::below(results[i].val_loss, results[b].val_loss));
        }
    }
    assert forall|i: int| 0 <= i < b implies crate::number::below(
        results[b].val_loss,
        (#[trigger] results[i]).val_loss,
    ) by {
        law_best_is_the_first(metric, results, i);
    }
}

impl<V: Number, W: Number> Default for SearchHistory<V, W> {
    /// No trials yet; they are compared by their loss.
    fn default() -> (r: Self)
        ensures
            r.trials@.len() == 0,
            r.best_trial_idx is None,
            r.optimization_metric == OptimizationMetric::ValidationLoss,
            r.wf(),
    {
        SearchHistory::with_metric(OptimizationMetric::ValidationLoss)
    }
}

impl<V: Number, W: Number> SearchHistory<V, W> {
    /// The place of the best trial is right.
    pub open spec fn wf(self) -> bool {
        match self.best_trial_idx {
            Some(i) => best_of(self.optimization_metric, self.trials@) == Some(i as int),
            None => self.trials@.len() == 0,
        }
    }

    /// No trials yet; they are compared by their loss.
    pub fn new() -> (r: Self)
        ensures
            r.trials@.len() == 0,
            r.best_trial_idx is None,
            r.optimization_metric == OptimizationMetric::ValidationLoss,
            r.wf(),
    {
        SearchHistory::with_metric(OptimizationMetric::ValidationLoss)
    }

    /// No trials yet.
    pub fn with_metric(metric: OptimizationMetric) -> (r: Self)
        ensures
            r.trials@.len() == 0,
            r.best_trial_idx is None,
            r.optimization_metric == metric,
            r.wf(),
    {
        SearchHistory { trials: Vec::new(), best_trial_idx: None, optimization_metric: metric }
    }

    /// Whether a trial is better than another.
    pub fn compare_trials(&self, new: &TrialResult<V, W>, best: &TrialResult<V, W>) -> (r: bool)
        requires
            crate::number::arithmetic::<V>(),
            crate::number::arithmetic::<W>(),
        ensures
            r == better(self.optimization_metric, *new, *best),
    {
        match self.optimization_metric {
            OptimizationMetric::ValidationLoss => new.val_loss < best.val_loss,
            OptimizationMetric::F1Score => {
                match (new.f1_score, best.f1_score) {
                    (Some(a), Some(b)) => !is_missing(a) && (is_missing(b) || a > b),
                    (Some(_), None) => true,
                    _ => false,
                }
            },
            OptimizationMetric::RocAuc => {
                match (new.roc_auc, best.roc_auc) {
                    (Some(a), Some(b)) => a > b,
                    (Some(_), None) => true,
                    _ => false,
                }
            },
            OptimizationMetric::RankIc => {
                match (new.rank_ic, best.rank_ic) {
                    (Some(a), Some(b)) => a > b,
                    (Some(_), None) => true,
                    _ => false,
                }
            },
        }
    }

    /// Adds a trial.
    pub fn add(&mut self, result: TrialResult<V, W>)
        requires
            crate::number::arithmetic::<V>(),
            crate::number::arithmetic::<W>(),
            old(self).wf(),
        ensures
            adds(*old(self), result, *final(self)),
    {
        let new_idx: usize = self.trials.len();
        proof {
            lemma_best_in_range(self.optimization_metric, self.trials@);
        }
        let is_better: bool = match self.best_trial_idx {
            Some(i) => self.compare_trials(&result, &self.trials[i]),
            None => true,
        };
        let ghost before = self.trials@;
        self.trials.push(result);
        if is_better {
            self.best_trial_idx = Some(new_idx);
        }
        assert(self.trials@.drop_last() =~= before);
    }

    /// By what trials are compared.
    pub fn optimization_metric(&self) -> (r: OptimizationMetric)
        ensures
            r == self.optimization_metric,
    {
        self.optimization_metric
    }

    /// The best trial.
    pub fn best(&self) -> (r: Option<&TrialResult<V, W>>)
        requires
            self.wf(),
        ensures
            match r {
                Some(t) => best_of(self.optimization_metric, self.trials@) is Some && *t
                    == self.trials@[best_of(self.optimization_metric, self.trials@)->0],
                None => self.trials@.len() == 0,
            },
    {
        proof {
            lemma_best_in_range(self.optimization_metric, self.trials@);
        }
        match self.best_trial_idx {
            Some(i) => Some(&self.trials[i]),
            None => None,
        }
    }

    /// The trials.
    pub fn trials(&self) -> (r: &[TrialResult<V, W>])
        ensures
            r@ == self.trials@,
    {
        self.trials.as_slice()
    }

    /// The trials of a round.
    pub fn trials_for_iteration(&self, iteration: usize) -> (r: Vec<&TrialResult<V, W>>)
        ensures
            r@.map_values(|t: &TrialResult<V, W>| *t) == self.trials@.filter(
                |t: TrialResult<V, W>| t.iteration == iteration,
            ),
    {
        let ghost keep = |t: TrialResult<V, W>| t.iteration == iteration;
        let ghost plain = |t: &TrialResult<V, W>| *t;
        let mut list: Vec<&TrialResult<V, W>> = Vec::new();
        let mut i: usize = 0;
        proof {
            reveal(Seq::filter);
            assert(self.trials@.take(0) =~= Seq::empty());
            assert(list@.map_values(plain) =~= self.trials@.take(0).filter(keep));
        }
        while i < self.trials.len()
            invariant
                keep == (|t: TrialResult<V, W>| t.iteration == iteration),
                plain == (|t: &TrialResult<V, W>| *t),
                i <= self.trials.len(),
                list@.map_values(plain) == self.trials@.take(i as int).filter(keep),
            decreases self.trials.len() - i,
        {
            proof {
                reveal(Seq::filter);
                assert(self.trials@.take(i + 1).drop_last() =~= self.trials@.take(i as int));
                assert(self.trials@.take(i + 1).last() == self.trials@[i as int]);
            }
            if self.trials[i].iteration == iteration {
                let ghost before = list@;
                list.push(&self.trials[i]);
                assert(list@.map_values(plain) =~= before.map_values(plain).push(
                    self.trials@[i as int],
                ));
            }
            i = i + 1;
        }
        assert(self.trials@.take(i as int) =~= self.trials@);
        list
    }

    /// How many trials there are.
    pub fn len(&self) -> (r: usize)
        ensures
            r == self.trials@.len(),
    {
        self.trials.len()
    }

    /// Whether there are no trials.
    pub fn is_empty(&self) -> (r: bool)
        ensures
            r == (self.trials@.len() == 0),
    {
        self.trials.len() == 0
    }

    /// The place of the trial that stands for the rounds before `iteration`.
    fn find_best_before(&self, iteration: usize) -> (r: Option<usize>)
        requires
            crate::number::arithmetic::<V>(),
            crate::number::arithmetic::<W>(),
        ensures
            match r {
                Some(i) => best_before(self.optimization_metric, self.trials@, iteration) == Some(
                    i as int,
                ) && i < self.trials@.len(),
                None => best_before(self.optimization_metric, self.trials@, iteration) is None,
            },
    {
        let mut so_far: Option<usize> = None;
        let mut i: usize = 0;
        assert(self.trials@.take(0) =~= Seq::empty());
        while i < self.trials.len()
            invariant
                crate::number::arithmetic::<V>(),
                crate::number::arithmetic::<W>(),
                i <= self.trials.len(),
                match so_far {
                    Some(k) => k < i && best_before(
                        self.optimization_metric,
                        self.trials@.take(i as int),
                        iteration,
                    ) == Some(k as int),
                    None => best_before(
                        self.optimization_metric,
                        self.trials@.take(i as int),
                        iteration,
                    ) is None,
                },
            decreases self.trials.len() - i,
        {
            proof {
                assert(self.trials@.take(i + 1).drop_last() =~= self.trials@.take(i as int));
            }
            if self.trials[i].iteration < iteration {
                let keep: bool = match so_far {
                    Some(k) => self.compare_trials(&self.trials[k], &self.trials[i]),
                    None => false,
                };
                if !keep {
                    so_far = Some(i);
                }
            }
            i = i + 1;
        }
        assert(self.trials@.take(i as int) =~= self.trials@);
        so_far
    }

    /// Whether a round has brought an improvement.
    pub fn improved(&self, iteration: usize) -> (r: bool)
        requires
            crate::number::arithmetic::<V>(),
            crate::number::arithmetic::<W>(),
            self.wf(),
        ensures
            r == improves(self.optimization_metric, self.trials@, iteration),
    {
        match self.best() {
            Some(best_after) => {
                match self.find_best_before(iteration) {
                    Some(k) => self.compare_trials(best_after, &self.trials[k]),
                    None => true,
                }
            },
            None => false,
        }
    }
}

/// One parameter of a trial in JSON.
pub open spec fn param_json(name: Seq<char>, value: Seq<char>, is_last: bool) -> Seq<char> {
    "        \""@ + name + "\": "@ + value + (if is_last {
        "\n"@
    } else {
        ",\n"@
    })
}

/// The first `n` parameters of a trial in JSON.
pub open spec fn params_json<V, F: Functions<V>>(
    f: &F,
    params: Map<Seq<char>, V>,
    names: Seq<Seq<char>>,
    n: nat,
) -> Seq<char>
    decreases n,
{
    if n == 0 {
        Seq::empty()
    } else {
        params_json(f, params, names, (n - 1) as nat) + param_json(
            names[n - 1],
            crate::functions::shown(f, params[names[n - 1]]),
            n == names.len(),
        )
    }
}

/// A line of a trial in JSON.
pub open spec fn line_json(label: Seq<char>, value: Seq<char>) -> Seq<char> {
    label + value + ",\n"@
}

/// A trial in JSON.
pub open spec fn trial_json<V: Number, W, F: Functions<V>>(
    f: &F,
    t: TrialResult<V, W>,
    is_last: bool,
) -> Seq<char> {
    "    {\n"@ + line_json("      \"trial_id\": "@, crate::text::decimal(t.trial_id as nat))
        + line_json("      \"iteration\": "@, crate::text::decimal(t.iteration as nat))
        + line_json("      \"val_metric\": "@, crate::functions::shown(f, t.val_loss))
        + line_json("      \"train_metric\": "@, crate::functions::shown(f, t.train_loss))
        + line_json("      \"num_trees\": "@, crate::text::decimal(t.num_trees as nat))
        + line_json("      \"train_time_ms\": "@, crate::text::decimal(t.train_time_ms as nat))
        + "      \"params\": {\n"@ + params_json(
        f,
        t.params@,
        crate::text_map::names_of(t.params@),
        crate::text_map::names_of(t.params@).len(),
    ) + "      }\n"@ + (if is_last {
        "    }\n"@
    } else {
        "    },\n"@
    })
}

/// The first `n` trials in JSON.
pub open spec fn trials_json<V: Number, W, F: Functions<V>>(
    f: &F,
    trials: Seq<TrialResult<V, W>>,
    n: nat,
) -> Seq<char>
    decreases n,
{
    if n == 0 {
        Seq::empty()
    } else {
        trials_json(f, trials, (n - 1) as nat) + trial_json(f, trials[n - 1], n == trials.len())
    }
}

/// The best trial in JSON.
pub open spec fn best_json<V, W>(best: Option<TrialResult<V, W>>) -> Seq<char> {
    match best {
        Some(t) => "  \"best_trial_id\": "@ + crate::text::decimal(t.trial_id as nat) + "\n"@,
        None => "  \"best_trial_id\": null\n"@,
    }
}

/// A search in JSON. The parameters of a trial come in the order of their
/// names.
pub open spec fn history_json<V: Number, W, F: Functions<V>>(
    f: &F,
    trials: Seq<TrialResult<V, W>>,
    best: Option<TrialResult<V, W>>,
) -> Seq<char> {
    "{\n  \"trials\": [\n"@ + trials_json(f, trials, trials.len()) + "  ],\n"@ + best_json(best)
        + "}\n"@
}

/// Appends a line of a trial in JSON.
fn push_line(json: &mut String, label: &str, value: &str)
    ensures
        final(json)@ == old(json)@ + line_json(label@, value@),
{
    let ghost start = json@;
    json.append(label);
    json.append(value);
    json.append(",\n");
    assert(json@ =~= start + line_json(label@, value@));
}

/// A trial in JSON.
fn render_trial<V: Number, W: Number, F: Functions<V>>(
    f: &F,
    t: &TrialResult<V, W>,
    is_last: bool,
) -> (r: String)
    requires
        crate::functions::computes(f),
    ensures
        r@ == trial_json(f, *t, is_last),
{
    let mut json = "    {\n".to_owned();
    let trial_id = decimal_string(t.trial_id as u64);
    push_line(&mut json, "      \"trial_id\": ", trial_id.as_str());
    let iteration = decimal_string(t.iteration as u64);
    push_line(&mut json, "      \"iteration\": ", iteration.as_str());
    let val_loss = show_number(f, t.val_loss);
    push_line(&mut json, "      \"val_metric\": ", val_loss.as_str());
    let train_loss = show_number(f, t.train_loss);
    push_line(&mut json, "      \"train_metric\": ", train_loss.as_str());
    let num_trees = decimal_string(t.num_trees as u64);
    push_line(&mut json, "      \"num_trees\": ", num_trees.as_str());
    let time = decimal_string(t.train_time_ms);
    push_line(&mut json, "      \"train_time_ms\": ", time.as_str());
    json.append("      \"params\": {\n");
    let names = t.params.keys();
    let ghost all = crate::text_map::names_of(t.params@);
    let ghost head = json@;
    let mut j: usize = 0;
    assert(head + params_json(f, t.params@, all, 0) =~= head);
    while j < names.len()
        invariant
            crate::functions::computes(f),
            all == crate::text_map::names_of(t.params@),
            all == crate::text::words(names@),
            crate::text_map::lists_names(all, t.params@),
            j <= names.len(),
            json@ == head + params_json(f, t.params@, all, j as nat),
        decreases names.len() - j,
    {
        let ghost so_far = json@;
        let name: &str = names[j];
        assert(all[j as int] == name@);
        assert(all.contains(name@));
        if let Some(v) = t.params.get(name) {
            let value = show_number(f, *v);
            json.append("        \"");
            json.append(name);
            json.append("\": ");
            json.append(value.as_str());
            if j + 1 < names.len() {
                json.append(",\n");
            } else {
                json.append("\n");
            }
            assert(json@ =~= so_far + param_json(name@, value@, j + 1 == all.len()));
            assert(params_json(f, t.params@, all, (j + 1) as nat) == params_json(
                f,
                t.params@,
                all,
                j as nat,
            ) + param_json(name@, value@, j + 1 == all.len()));
            assert(json@ =~= head + params_json(f, t.params@, all, (j + 1) as nat));
        }
        j = j + 1;
    }
    json.append("      }\n");
    if is_last {
        json.append("    }\n");
    } else {
        json.append("    },\n");
    }
    assert(json@ =~= trial_json(f, *t, is_last));
    json
}

impl<V: Number, W: Number> SearchHistory<V, W> {
    /// The search in JSON.
    pub fn to_json<F: Functions<V>>(&self, f: &F) -> (r: String)
        requires
            crate::functions::computes(f),
            self.wf(),
        ensures
            r@ == history_json(
                f,
                self.trials@,
                match best_of(self.optimization_metric, self.trials@) {
                    Some(i) => Some(self.trials@[i]),
                    None => None,
                },
            ),
    {
        let mut json = "{\n  \"trials\": [\n".to_owned();
        let ghost head = json@;
        let mut i: usize = 0;
        assert(head + trials_json(f, self.trials@, 0) =~= head);
        while i < self.trials.len()
            invariant
                crate::functions::computes(f),
                i <= self.trials.len(),
                json@ == head + trials_json(f, self.trials@, i as nat),
            decreases self.trials.len() - i,
        {
            let ghost so_far = json@;
            let text = render_trial(f, &self.trials[i], i + 1 == self.trials.len());
            json.append(text.as_str());
            assert(json@ =~= head + trials_json(f, self.trials@, (i + 1) as nat));
            i = i + 1;
        }
        json.append("  ],\n");
        let ghost start = json@;
        proof {
            lemma_best_in_range(self.optimization_metric, self.trials@);
        }
        let ghost best = match best_of(self.optimization_metric, self.trials@) {
            Some(i) => Some(self.trials@[i]),
            None => None,
        };
        match self.best() {
            Some(t) => {
                let id = decimal_string(t.trial_id as u64);
                json.append("  \"best_trial_id\": ");
                json.append(id.as_str());
                json.append("\n");
            },
            None => {
                json.append("  \"best_trial_id\": null\n");
            },
        }
        assert(json@ =~= start + best_json(best));
        json.append("}\n");
        assert(json@ =~= history_json(f, self.trials@, best));
        json
    }
}

/// Where trials are compared by a score, no trial has a score above that of the
/// best, and if any has one, so has the best.
pub proof fn law_best_has_the_greatest_score<V: Number, W: Number>(
    metric: OptimizationMetric,
    trials: Seq<TrialResult<V, W>>,
    k: int,
)
    requires
        crate::number::ordered::<V>(),
        crate::number::ordered::<W>(),
        crate::number::mirrored::<V>(),
        0 <= k < trials.len(),
    ensures
        best_of(metric, trials) is Some,
        ({
            let (trial, best) = (trials[k], trials[best_of(metric, trials)->0]);
            &&& metric is RocAuc && trial.roc_auc is Some ==> best.roc_auc is Some
                && !crate::number::above(trial.roc_auc->0, best.roc_auc->0)
            &&& metric is RankIc && trial.rank_ic is Some ==> best.rank_ic is Some
                && !crate::number::above(trial.rank_ic->0, best.rank_ic->0)
            &&& metric is F1Score && trial.f1_score is Some && !crate::number::missing(
                trial.f1_score->0,
            ) ==> best.f1_score is Some && !crate::number::missing(best.f1_score->0)
                && !crate::number::above(trial.f1_score->0, best.f1_score->0)
            &&& metric is ValidationLoss ==> !crate::number::below(trial.val_loss, best.val_loss)
        }),
{
    law_best_is_not_beaten(metric, trials, k);
}

} // verus!
