//! What comes of evaluating a candidate.

use crate::functions::{show_fixed, Functions};
use crate::number::Number;
use crate::text::decimal_string;
use crate::text_map::TextMap;
use vstd::prelude::*;

verus! {

/// What came of evaluating a candidate. `W` is the type of the numbers that
/// need more precision.
#[derive(Debug, Clone)]
pub struct TrialResult<V, W> {
    /// The number of the trial.
    pub trial_id: usize,
    /// The round of the search.
    pub iteration: usize,
    /// The values of the parameters.
    pub params: TextMap<V>,
    /// The loss on the data held back; lower is better.
    pub val_loss: V,
    /// The loss on the data of the training.
    pub train_loss: V,
    /// How many trees were trained.
    pub num_trees: usize,
    /// How long it took, in milliseconds.
    pub train_time_ms: u64,
    /// The harmonic mean of precision and recall, for a classification.
    pub f1_score: Option<V>,
    /// The area under the receiver operating characteristic, for a
    /// classification into two classes.
    pub roc_auc: Option<W>,
    /// The correlation of the ranks, for a regression.
    pub rank_ic: Option<W>,
}

/// The names of the columns of a table of trials, without the parameters.
pub open spec fn column_names() -> Seq<Seq<char>> {
    seq![
        "trial_id"@,
        "iteration"@,
        "val_loss"@,
        "train_loss"@,
        "f1_score"@,
        "roc_auc"@,
        "rank_ic"@,
        "num_trees"@,
        "train_time_ms"@,
    ]
}

/// A number that may be absent, with so many digits behind the point.
pub open spec fn optional_text<V, F: Functions<V>>(
    f: &F,
    v: Option<V>,
    digits: usize,
) -> Seq<char> {
    match v {
        Some(x) => crate::functions::fixed_text(f, x, digits),
        None => Seq::empty(),
    }
}

/// Writes a number that may be absent.
fn show_optional<V: Copy, F: Functions<V>>(f: &F, v: Option<V>, digits: usize) -> (r: String)
    requires
        crate::functions::computes(f),
    ensures
        r@ == optional_text(f, v, digits),
{
    match v {
        Some(x) => show_fixed(f, x, digits),
        None => {
            let s = String::new();
            assert(s@ =~= Seq::empty());
            s
        },
    }
}

impl<V: Number, W: Number> TrialResult<V, W> {
    /// The entries of a trial in a table, without the parameters.
    pub open spec fn entries<F: Functions<V>, G: Functions<W>>(self, f: &F, g: &G) -> Seq<
        Seq<char>,
    > {
        seq![
            crate::text::decimal(self.trial_id as nat),
            crate::text::decimal(self.iteration as nat),
            crate::functions::fixed_text(f, self.val_loss, 6),
            crate::functions::fixed_text(f, self.train_loss, 6),
            optional_text(f, self.f1_score, 4),
            optional_text(g, self.roc_auc, 6),
            optional_text(g, self.rank_ic, 6),
            crate::text::decimal(self.num_trees as nat),
            crate::text::decimal(self.train_time_ms as nat),
        ]
    }

    /// The value of a parameter, if there is one.
    pub open spec fn param(self, name: Seq<char>) -> Option<V> {
        if self.params@.contains_key(name) {
            Some(self.params@[name])
        } else {
            None
        }
    }

    /// The names of the columns of a table of trials, without the parameters.
    pub fn csv_headers() -> (r: Vec<&'static str>)
        ensures
            crate::text::words(r@) == column_names(),
    {
        let r: Vec<&'static str> = vec![
            "trial_id",
            "iteration",
            "val_loss",
            "train_loss",
            "f1_score",
            "roc_auc",
            "rank_ic",
            "num_trees",
            "train_time_ms",
        ];
        assert(crate::text::words(r@) =~= column_names());
        r
    }

    /// The entries of the trial in a table, without the parameters.
    pub fn to_csv_row<F: Functions<V>, G: Functions<W>>(&self, f: &F, g: &G) -> (r: Vec<String>)
        requires
            crate::functions::computes(f),
            crate::functions::computes(g),
        ensures
            crate::text::texts(r@) == self.entries(f, g),
    {
        let mut row: Vec<String> = Vec::new();
        row.push(decimal_string(self.trial_id as u64));
        row.push(decimal_string(self.iteration as u64));
        row.push(show_fixed(f, self.val_loss, 6));
        row.push(show_fixed(f, self.train_loss, 6));
        row.push(show_optional(f, self.f1_score, 4));
        row.push(show_optional(g, self.roc_auc, 6));
        row.push(show_optional(g, self.rank_ic, 6));
        row.push(decimal_string(self.num_trees as u64));
        row.push(decimal_string(self.train_time_ms));
        assert(crate::text::texts(row@) =~= self.entries(f, g));
        row
    }

    /// The value of a parameter in a table; nothing, where there is none.
    pub fn param_to_csv<F: Functions<V>>(&self, name: &str, f: &F) -> (r: String)
        requires
            crate::functions::computes(f),
        ensures
            r@ == optional_text(f, self.param(name@), 6),
    {
        let value: Option<V> = match self.params.get(name) {
            Some(v) => Some(*v),
            None => None,
        };
        show_optional(f, value, 6)
    }
}

/// The names of all columns of a table of trials.
pub fn table_header<V: Number, W: Number>(param_names: &[String]) -> (r: Vec<String>)
    ensures
        crate::text::texts(r@) == column_names() + crate::text::texts(param_names@),
{
    let fixed = TrialResult::<V, W>::csv_headers();
    let mut names: Vec<String> = Vec::new();
    let mut i: usize = 0;
    while i < fixed.len()
        invariant
            i <= fixed.len(),
            names.len() == i,
            forall|k: int| 0 <= k < i ==> (#[trigger] names[k])@ == fixed[k]@,
        decreases fixed.len() - i,
    {
        names.push(fixed[i].to_owned());
        i = i + 1;
    }
    let mut j: usize = 0;
    while j < param_names.len()
        invariant
            j <= param_names.len(),
            names.len() == fixed.len() + j,
            forall|k: int| 0 <= k < fixed.len() ==> (#[trigger] names[k])@ == fixed[k]@,
            forall|k: int|
                fixed.len() <= k < names.len() ==> (#[trigger] names[k])@ == param_names[k
                    - fixed.len()]@,
        decreases param_names.len() - j,
    {
        names.push(param_names[j].clone());
        j = j + 1;
    }
    proof {
        let all = crate::text::texts(names@);
        let a = crate::text::words(fixed@);
        assert(all =~= a + crate::text::texts(param_names@));
    }
    names
}

/// All entries of a trial in a table.
pub fn table_row<V: Number, W: Number, F: Functions<V>, G: Functions<W>>(
    trial: &TrialResult<V, W>,
    param_names: &[String],
    f: &F,
    g: &G,
) -> (r: Vec<String>)
    requires
        crate::functions::computes(f),
        crate::functions::computes(g),
    ensures
        crate::text::texts(r@) == trial.entries(f, g) + Seq::new(
            param_names@.len(),
            |i: int| optional_text(f, trial.param(param_names@[i]@), 6),
        ),
{
    let mut row = trial.to_csv_row(f, g);
    let ghost fixed = row@;
    let mut j: usize = 0;
    while j < param_names.len()
        invariant
            crate::functions::computes(f),
            j <= param_names.len(),
            row@.len() == fixed.len() + j,
            forall|k: int| 0 <= k < fixed.len() ==> #[trigger] row@[k] == fixed[k],
            forall|k: int|
                fixed.len() <= k < row@.len() ==> (#[trigger] row@[k])@ == optional_text(
                    f,
                    trial.param(param_names@[k - fixed.len()]@),
                    6,
                ),
        decreases param_names.len() - j,
    {
        row.push(trial.param_to_csv(param_names[j].as_str(), f));
        j = j + 1;
    }
    proof {
        assert(crate::text::texts(row@) =~= crate::text::texts(fixed) + Seq::new(
            param_names@.len(),
            |i: int| optional_text(f, trial.param(param_names@[i]@), 6),
        ));
    }
    row
}

/// The name of the file for the trials of a round.
pub fn iteration_file_name(iteration: usize) -> (r: String)
    requires
        iteration < usize::MAX,
    ensures
        r@ == "iteration_"@ + crate::text::decimal((iteration + 1) as nat) + ".csv"@,
{
    let number = decimal_string((iteration + 1) as u64);
    crate::text::join3("iteration_", number.as_str(), ".csv")
}

} // verus!
