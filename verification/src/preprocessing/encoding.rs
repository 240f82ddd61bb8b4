//! Encoders that turn categories into numbers.
//!
//! - [`LabelEncoder`] gives every category its place in the sorted list.
//! - [`OneHotEncoder`] gives every category a column of its own.

use crate::error::{Result, TreeBoostError};
use crate::functions::Functions;
use crate::number::Number;
use crate::text::{decimal_string, distinct_sorted, find, join3, join5};
use vstd::prelude::*;

verus! {

/// The value of a [`LabelEncoder`].
#[verifier::ext_equal]
pub struct Labels {
    /// The categories in label order.
    pub classes: Seq<Seq<char>>,
    /// The label of a category that was not seen, if it has one.
    pub unknown: Option<u32>,
    /// Whether the encoder was fitted.
    pub fitted: bool,
}

impl Labels {
    /// The label of a category that was seen.
    pub open spec fn label(self, category: Seq<char>) -> Option<u32> {
        match crate::text::place_of(self.classes, category) {
            Some(i) => Some(i as u32),
            None => None,
        }
    }

    /// What a category is encoded as.
    pub open spec fn encode(self, category: Seq<char>) -> Option<u32> {
        if !self.fitted {
            None
        } else {
            match self.label(category) {
                Some(l) => Some(l),
                None => self.unknown,
            }
        }
    }

    /// Category `i` of `items` is the first that has no label.
    pub open spec fn first_unknown(self, items: Seq<Seq<char>>, i: int) -> bool {
        &&& 0 <= i < items.len()
        &&& self.encode(items[i]) is None
        &&& forall|k: int| 0 <= k < i ==> self.encode(#[trigger] items[k]) is Some
    }

    /// Label `i` of `labels` is the first that stands for no category.
    pub open spec fn first_foreign(self, labels: Seq<u32>, i: int) -> bool {
        &&& 0 <= i < labels.len()
        &&& labels[i] >= self.classes.len()
        &&& forall|k: int| 0 <= k < i ==> (#[trigger] labels[k]) < self.classes.len()
    }

    /// What comes of turning a list of categories into labels, as numbers.
    pub open spec fn codes<V, F: Functions<V>>(
        self,
        categories: Seq<&str>,
        f: &F,
        r: Result<Vec<V>>,
    ) -> bool {
        match r {
            Ok(values) => {
                &&& self.fitted
                &&& values.len() == categories.len()
                &&& forall|i: int|
                    0 <= i < values.len() ==> {
                        &&& self.encode(categories[i]@) is Some
                        &&& #[trigger] values[i] == crate::functions::count_of::<V, F>(
                            f,
                            self.encode(categories[i]@)->Some_0 as usize,
                        )
                    }
            },
            Err(e) => if !self.fitted {
                e.is_data(label_not_fitted())
            } else {
                exists|i: int|
                    {
                        &&& #[trigger] self.first_unknown(crate::text::words(categories), i)
                        &&& e.is_data(no_label_for(categories[i]@, i))
                    }
            },
        }
    }
}

/// The complaint about an encoder that is used before it was fitted.
pub open spec fn label_not_fitted() -> Seq<char> {
    "LabelEncoder not fitted. Call fit() first."@
}

/// The complaint about category `i` of a batch, which has no label.
pub open spec fn no_label_for(category: Seq<char>, i: int) -> Seq<char> {
    "Unknown category '"@ + category + "' at index "@ + crate::text::decimal(i as nat)
        + " and no unknown_label set"@
}

/// The complaint about label `i` of a batch, which stands for no category.
pub open spec fn no_category_for(label: u32, i: int) -> Seq<char> {
    "Unknown label "@ + crate::text::decimal(label as nat) + " at index "@ + crate::text::decimal(
        i as nat,
    )
}

/// Maps categories to integer labels: the places in the sorted list of the
/// distinct categories.
#[derive(Debug)]
pub struct LabelEncoder {
    /// The distinct categories, sorted; the label of each is its index.
    classes: Vec<String>,
    /// The label of unknown categories; `None` makes them an error.
    unknown_label: Option<u32>,
    /// Whether `fit` has been called.
    fitted: bool,
}

impl View for LabelEncoder {
    type V = Labels;

    closed spec fn view(&self) -> Labels {
        Labels {
            classes: crate::text::texts(self.classes@),
            unknown: self.unknown_label,
            fitted: self.fitted,
        }
    }
}

impl LabelEncoder {
    /// The classes are sorted and none occurs twice.
    #[verifier::type_invariant]
    pub closed spec fn wf(&self) -> bool {
        crate::text::sorted_distinct(crate::text::texts(self.classes@))
    }

    /// A valid encoder has its classes sorted, without repetition.
    pub proof fn lemma_wf(&self)
        requires
            self.wf(),
        ensures
            crate::text::sorted_distinct(self@.classes),
    {
    }

    /// An encoder that was not fitted yet and has no label for unknown
    /// categories.
    pub fn new() -> (r: Self)
        ensures
            r@ == (Labels { classes: Seq::empty(), unknown: None, fitted: false }),
    {
        let r = LabelEncoder { classes: Vec::new(), unknown_label: None, fitted: false };
        assert(crate::text::texts(r.classes@) =~= Seq::<Seq<char>>::empty());
        r
    }

    /// The label of unknown categories; `None` makes them an error.
    pub fn unknown_label(&self) -> (r: Option<u32>)
        ensures
            r == self@.unknown,
    {
        self.unknown_label
    }

    /// Sets the label of unknown categories; `None` makes them an error.
    pub fn with_unknown_label(self, label: Option<u32>) -> (r: Self)
        ensures
            r@ == (Labels { unknown: label, ..self@ }),
    {
        let mut s = self;
        proof {
            use_type_invariant(&s);
        }
        s.unknown_label = label;
        s
    }

    /// Learns the categories: the distinct ones are sorted and numbered.
    pub fn fit(&mut self, categories: &[&str])
        ensures
            final(self)@ == (Labels {
                classes: crate::text::distinct_of(crate::text::words(categories@)),
                unknown: old(self)@.unknown,
                fitted: true,
            }),
    {
        proof {
            use_type_invariant(&*self);
        }
        let unique = distinct_sorted(categories);
        self.classes = unique;
        self.fitted = true;
    }

    /// The label of one category: `None` before `fit`, and for an unknown
    /// category without a label of its own.
    pub fn transform_single(&self, category: &str) -> (r: Option<u32>)
        ensures
            r == self@.encode(category@),
    {
        if !self.fitted {
            return None;
        }
        match self.get_label(category) {
            Some(label) => Some(label),
            None => self.unknown_label,
        }
    }

    /// The labels of a batch of categories.
    pub fn transform(&self, categories: &[&str]) -> (r: Result<Vec<u32>>)
        ensures
            match r {
                Ok(labels) => {
                    &&& self@.fitted
                    &&& labels.len() == categories.len()
                    &&& forall|i: int|
                        0 <= i < categories.len() ==> self@.encode((#[trigger] categories[i])@)
                            == Some(labels[i])
                },
                Err(e) => if !self@.fitted {
                    e.is_data(label_not_fitted())
                } else {
                    exists|i: int|
                        {
                            &&& #[trigger] self@.first_unknown(
                                crate::text::words(categories@),
                                i,
                            )
                            &&& e.is_data(no_label_for(categories[i]@, i))
                        }
                },
            },
    {
        if !self.fitted {
            return Err(
                TreeBoostError::Data("LabelEncoder not fitted. Call fit() first.".to_owned()),
            );
        }
        let mut labels: Vec<u32> = Vec::new();
        let mut i: usize = 0;
        while i < categories.len()
            invariant
                self@.fitted,
                i <= categories.len(),
                labels.len() == i,
                forall|k: int|
                    0 <= k < i ==> self@.encode((#[trigger] categories[k])@) == Some(labels[k]),
            decreases categories.len() - i,
        {
            let category: &str = categories[i];
            match self.transform_single(category) {
                Some(label) => labels.push(label),
                None => {
                    let number = decimal_string(i as u64);
                    proof {
                        let items = crate::text::words(categories@);
                        assert forall|k: int| 0 <= k < i implies self@.encode(
                            #[trigger] items[k],
                        ) is Some by {
                            assert(items[k] == categories[k]@);
                        }
                        assert(self@.first_unknown(items, i as int));
                    }
                    return Err(
                        TreeBoostError::Data(
                            join5(
                                "Unknown category '",
                                category,
                                "' at index ",
                                number.as_str(),
                                " and no unknown_label set",
                            ),
                        ),
                    );
                },
            }
            i = i + 1;
        }
        Ok(labels)
    }

    /// The labels of a batch of categories, as numbers.
    pub fn transform_f32<V: Number, F: Functions<V>>(&self, categories: &[&str], f: &F) -> (r:
        Result<Vec<V>>)
        requires
            crate::functions::computes(f),
        ensures
            self@.codes(categories@, f, r),
    {
        match self.transform(categories) {
            Ok(labels) => {
                let mut values: Vec<V> = Vec::new();
                let mut i: usize = 0;
                while i < labels.len()
                    invariant
                        crate::functions::computes(f),
                        i <= labels.len(),
                        values.len() == i,
                        forall|k: int|
                            0 <= k < i ==> #[trigger] values[k] == crate::functions::count_of::<
                                V,
                                F,
                            >(f, labels[k] as usize),
                    decreases labels.len() - i,
                {
                    values.push(f.count(labels[i] as usize));
                    i = i + 1;
                }
                assert forall|i: int| 0 <= i < values.len() implies {
                    &&& self@.encode(categories[i]@) is Some
                    &&& #[trigger] values[i] == crate::functions::count_of::<V, F>(
                        f,
                        self@.encode(categories[i]@)->Some_0 as usize,
                    )
                } by {
                    assert(self@.encode(categories[i]@) == Some(labels[i]));
                }
                Ok(values)
            },
            Err(e) => Err(e),
        }
    }

    /// Learns the categories and encodes them.
    pub fn fit_transform(&mut self, categories: &[&str]) -> (r: Result<Vec<u32>>)
        ensures
            final(self)@ == (Labels {
                classes: crate::text::distinct_of(crate::text::words(categories@)),
                unknown: old(self)@.unknown,
                fitted: true,
            }),
            r is Ok,
            r->Ok_0.len() == categories.len(),
            forall|i: int|
                0 <= i < categories.len() ==> final(self)@.label((#[trigger] categories[i])@)
                    == Some(r->Ok_0[i]),
    {
        self.fit(categories);
        proof {
            let items = crate::text::words(categories@);
            crate::text::lemma_distinct_exists(items);
            assert forall|i: int| 0 <= i < categories.len() implies self@.label(
                (#[trigger] categories[i])@,
            ) is Some by {
                assert(items[i] == categories[i]@);
                assert(items.contains(categories[i]@));
                assert(self@.classes.contains(categories[i]@));
            }
            assert forall|i: int| !(#[trigger] self@.first_unknown(items, i)) by {
                if 0 <= i < items.len() {
                    assert(items[i] == categories[i]@);
                }
            }
        }
        self.transform(categories)
    }

    /// The categories that a batch of labels stands for.
    pub fn inverse_transform(&self, labels: &[u32]) -> (r: Result<Vec<String>>)
        ensures
            match r {
                Ok(names) => {
                    &&& self@.fitted
                    &&& names.len() == labels.len()
                    &&& forall|i: int|
                        0 <= i < labels.len() ==> (#[trigger] labels[i]) < self@.classes.len()
                            && names[i]@ == self@.classes[labels[i] as int]
                },
                Err(e) => if !self@.fitted {
                    e.is_data(label_not_fitted())
                } else {
                    exists|i: int|
                        {
                            &&& #[trigger] self@.first_foreign(labels@, i)
                            &&& e.is_data(no_category_for(labels[i], i))
                        }
                },
            },
    {
        if !self.fitted {
            return Err(
                TreeBoostError::Data("LabelEncoder not fitted. Call fit() first.".to_owned()),
            );
        }
        let mut names: Vec<String> = Vec::new();
        let mut i: usize = 0;
        while i < labels.len()
            invariant
                self@.fitted,
                i <= labels.len(),
                names.len() == i,
                forall|k: int|
                    0 <= k < i ==> (#[trigger] labels[k]) < self@.classes.len() && names[k]@
                        == self@.classes[labels[k] as int],
            decreases labels.len() - i,
        {
            let label: u32 = labels[i];
            if (label as usize) < self.classes.len() {
                names.push(self.classes[label as usize].clone());
            } else {
                let which = decimal_string(label as u64);
                let number = decimal_string(i as u64);
                proof {
                    assert(self@.first_foreign(labels@, i as int));
                }
                let mut message = join3("Unknown label ", which.as_str(), " at index ");
                message.append(number.as_str());
                return Err(TreeBoostError::Data(message));
            }
            i = i + 1;
        }
        Ok(names)
    }

    /// Whether `fit` has been called.
    pub fn is_fitted(&self) -> (r: bool)
        ensures
            r == self@.fitted,
    {
        self.fitted
    }

    /// The number of distinct categories.
    pub fn num_classes(&self) -> (r: usize)
        ensures
            r == self@.classes.len(),
    {
        self.classes.len()
    }

    /// The category that a label stands for.
    pub fn get_category(&self, label: u32) -> (r: Option<&str>)
        ensures
            match r {
                Some(c) => label < self@.classes.len() && c@ == self@.classes[label as int],
                None => label >= self@.classes.len(),
            },
    {
        if (label as usize) < self.classes.len() {
            Some(self.classes[label as usize].as_str())
        } else {
            None
        }
    }

    /// The label of a category that was seen.
    pub fn get_label(&self, category: &str) -> (r: Option<u32>)
        ensures
            r == self@.label(category@),
    {
        proof {
            use_type_invariant(self);
        }
        match find(self.classes.as_slice(), category) {
            Ok(i) => Some(i as u32),
            Err(_) => None,
        }
    }

    /// The categories in label order.
    pub fn classes(&self) -> (r: &[String])
        ensures
            crate::text::texts(r@) == self@.classes,
    {
        self.classes.as_slice()
    }
}

impl Clone for LabelEncoder {
    fn clone(&self) -> (r: Self)
        ensures
            r@ == self@,
    {
        proof {
            use_type_invariant(self);
        }
        LabelEncoder {
            classes: crate::text::copy_texts(self.classes.as_slice()),
            unknown_label: self.unknown_label,
            fitted: self.fitted,
        }
    }
}

impl Default for LabelEncoder {
    /// The same as [`LabelEncoder::new`].
    fn default() -> (r: Self)
        ensures
            r@ == (Labels { classes: Seq::empty(), unknown: None, fitted: false }),
    {
        LabelEncoder::new()
    }
}

/// Decoding undoes encoding: the label of a category stands for that category,
/// as long as every class has a label of its own.
pub proof fn law_label_round_trip(labels: Labels, category: Seq<char>)
    requires
        crate::text::sorted_distinct(labels.classes),
        labels.classes.len() <= u32::MAX + 1,
        labels.classes.contains(category),
    ensures
        labels.label(category) is Some,
        labels.label(category)->Some_0 < labels.classes.len(),
        labels.classes[labels.label(category)->Some_0 as int] == category,
{
}

/// Encoding undoes decoding: the category of a label has that label.
pub proof fn law_category_round_trip(labels: Labels, label: u32)
    requires
        crate::text::sorted_distinct(labels.classes),
        label < labels.classes.len(),
    ensures
        labels.label(labels.classes[label as int]) == Some(label),
{
    crate::text::lemma_place_of(labels.classes, label as int);
}

/// Labels keep the order of the categories.
pub proof fn law_labels_keep_order(labels: Labels, a: Seq<char>, b: Seq<char>)
    requires
        crate::text::sorted_distinct(labels.classes),
        labels.classes.len() <= u32::MAX + 1,
        labels.classes.contains(a),
        labels.classes.contains(b),
    ensures
        crate::text::text_before(a, b) <==> labels.label(a)->Some_0 < labels.label(b)->Some_0,
{
    let i = labels.classes.index_of(a);
    let j = labels.classes.index_of(b);
    if i == j {
        crate::text::lemma_text_irreflexive(a);
    } else if j < i {
        assert(crate::text::text_before(labels.classes[j], labels.classes[i]));
        if crate::text::text_before(a, b) {
            crate::text::lemma_text_transitive(a, b, a);
            crate::text::lemma_text_irreflexive(a);
        }
    } else {
        assert(crate::text::text_before(labels.classes[i], labels.classes[j]));
    }
}

/// What was fitted is known afterwards, and nothing else is.
pub proof fn law_fit_knows_its_categories(items: Seq<Seq<char>>, category: Seq<char>)
    ensures
        (Labels {
            classes: crate::text::distinct_of(items),
            unknown: None,
            fitted: true,
        }).encode(category) is Some <==> items.contains(category),
{
    crate::text::lemma_distinct_exists(items);
    assert(crate::text::distinct_of(items).contains(category) <==> items.contains(category));
}

/// What a [`OneHotEncoder`] does with a category that it has not seen.
#[derive(Debug, Clone, Copy, PartialEq, Eq, Structural)]
pub enum UnknownStrategy {
    /// All columns are 0.
    AllZeros,
    /// It is an error.
    Error,
}

/// The value of a [`OneHotEncoder`].
#[verifier::ext_equal]
pub struct Columns {
    /// The categories in order.
    pub categories: Seq<Seq<char>>,
    /// What happens to unknown categories.
    pub unknown: UnknownStrategy,
    /// Whether the first category has no column.
    pub drop_first: bool,
    /// How many categories are allowed; 0 stands for any number.
    pub limit: nat,
    /// Whether the encoder was fitted.
    pub fitted: bool,
}

impl Columns {
    /// The number of categories without a column.
    pub open spec fn dropped(self) -> int {
        if self.drop_first && self.categories.len() > 0 {
            1
        } else {
            0
        }
    }

    /// The number of columns.
    pub open spec fn width(self) -> int {
        self.categories.len() - self.dropped()
    }

    /// The column that is 1 for a category, if there is one.
    pub open spec fn hot(self, category: Seq<char>) -> Option<int> {
        match crate::text::place_of(self.categories, category) {
            Some(i) => if i >= self.dropped() {
                Some(i - self.dropped())
            } else {
                None
            },
            None => None,
        }
    }

    /// The category can be encoded.
    pub open spec fn accepts(self, category: Seq<char>) -> bool {
        self.unknown is AllZeros || self.categories.contains(category)
    }

    /// Category `i` of `items` is the first that cannot be encoded.
    pub open spec fn first_refused(self, items: Seq<Seq<char>>, i: int) -> bool {
        &&& 0 <= i < items.len()
        &&& !self.accepts(items[i])
        &&& forall|k: int| 0 <= k < i ==> self.accepts(#[trigger] items[k])
    }

    /// The number in column `j` of the row of a category.
    pub open spec fn bit(self, category: Seq<char>, j: int) -> u8 {
        if self.hot(category) == Some(j) {
            1
        } else {
            0
        }
    }

    /// There are more distinct categories in `items` than are allowed.
    pub open spec fn too_many(self, items: Seq<Seq<char>>) -> bool {
        self.limit > 0 && crate::text::distinct_of(items).len() > self.limit
    }

    /// What comes of learning the categories: the encoder becomes `after`, and
    /// stays as it was where there are too many.
    pub open spec fn learns(self, after: Self, categories: Seq<&str>, r: Result<()>) -> bool {
        match r {
            Ok(_) => {
                &&& !self.too_many(crate::text::words(categories))
                &&& after == (Columns {
                    categories: crate::text::distinct_of(crate::text::words(categories)),
                    fitted: true,
                    ..self
                })
            },
            Err(e) => {
                &&& self.too_many(crate::text::words(categories))
                &&& after == self
                &&& e.is_config(
                    too_many_categories(
                        crate::text::distinct_of(crate::text::words(categories)).len(),
                        self.limit,
                    ),
                )
            },
        }
    }

    /// What comes of turning a list of categories into rows.
    pub open spec fn codes<V: From<u8>>(
        self,
        categories: Seq<&str>,
        r: Result<Vec<V>>,
    ) -> bool {
        match r {
            Ok(rows) => {
                &&& self.fitted
                &&& rows.len() == categories.len() * self.width()
                &&& forall|i: int, j: int|
                    0 <= i < categories.len() && 0 <= j < self.width()
                        ==> crate::number::number_of(
                        #[trigger] self.bit(categories[i]@, j),
                        rows[i * self.width() + j],
                    )
                &&& forall|i: int|
                    0 <= i < categories.len() ==> self.accepts((#[trigger] categories[i])@)
            },
            Err(e) => if !self.fitted {
                e.is_data(one_hot_not_fitted())
            } else {
                exists|i: int|
                    {
                        &&& #[trigger] self.first_refused(
                            crate::text::words(categories),
                            i,
                        )
                        &&& e.is_data(unknown_category(categories[i]@))
                    }
            },
        }
    }
}

/// The complaint about an encoder that is used before it was fitted.
pub open spec fn one_hot_not_fitted() -> Seq<char> {
    "OneHotEncoder not fitted. Call fit() first."@
}

/// The complaint about a category that cannot be encoded.
pub open spec fn unknown_category(category: Seq<char>) -> Seq<char> {
    "Unknown category '"@ + category + "'"@
}

/// The complaint about more categories than are allowed.
pub open spec fn too_many_categories(found: nat, limit: nat) -> Seq<char> {
    "OneHotEncoder: "@ + crate::text::decimal(found)
        + " unique categories exceeds max_categories limit of "@ + crate::text::decimal(limit)
        + ". High-cardinality one-hot encoding can cause memory explosion. Consider using TargetEncoder or increasing max_categories with with_max_categories()."@
}

/// Maps every category to a row of columns of which at most one is 1.
#[derive(Debug)]
pub struct OneHotEncoder {
    /// The distinct categories, sorted.
    categories: Vec<String>,
    /// What happens to unknown categories.
    handle_unknown: UnknownStrategy,
    /// Whether the first category has no column.
    drop_first: bool,
    /// How many categories are allowed; 0 stands for any number.
    max_categories: usize,
    /// Whether `fit` has been called.
    fitted: bool,
}

impl View for OneHotEncoder {
    type V = Columns;

    closed spec fn view(&self) -> Columns {
        Columns {
            categories: crate::text::texts(self.categories@),
            unknown: self.handle_unknown,
            drop_first: self.drop_first,
            limit: self.max_categories as nat,
            fitted: self.fitted,
        }
    }
}

impl OneHotEncoder {
    /// The categories are sorted and none occurs twice.
    #[verifier::type_invariant]
    pub closed spec fn wf(&self) -> bool {
        crate::text::sorted_distinct(crate::text::texts(self.categories@))
    }

    /// A valid encoder has its categories sorted, without repetition.
    pub proof fn lemma_wf(&self)
        requires
            self.wf(),
        ensures
            crate::text::sorted_distinct(self@.categories),
    {
    }

    /// An encoder that was not fitted yet; it allows 100 categories and gives
    /// unknown ones a row of zeros.
    pub fn new() -> (r: Self)
        ensures
            r@ == (Columns {
                categories: Seq::empty(),
                unknown: UnknownStrategy::AllZeros,
                drop_first: false,
                limit: 100,
                fitted: false,
            }),
    {
        let r = OneHotEncoder {
            categories: Vec::new(),
            handle_unknown: UnknownStrategy::AllZeros,
            drop_first: false,
            max_categories: 100,
            fitted: false,
        };
        assert(crate::text::texts(r.categories@) =~= Seq::<Seq<char>>::empty());
        r
    }

    /// What happens to unknown categories.
    pub fn unknown_strategy(&self) -> (r: UnknownStrategy)
        ensures
            r == self@.unknown,
    {
        self.handle_unknown
    }

    /// Whether the first category has no column.
    pub fn drops_first(&self) -> (r: bool)
        ensures
            r == self@.drop_first,
    {
        self.drop_first
    }

    /// Sets what happens to unknown categories.
    pub fn with_unknown_strategy(self, strategy: UnknownStrategy) -> (r: Self)
        ensures
            r@ == (Columns { unknown: strategy, ..self@ }),
    {
        let mut s = self;
        proof {
            use_type_invariant(&s);
        }
        s.handle_unknown = strategy;
        s
    }

    /// Sets whether the first category has no column.
    pub fn with_drop_first(self, drop: bool) -> (r: Self)
        ensures
            r@ == (Columns { drop_first: drop, ..self@ }),
    {
        let mut s = self;
        proof {
            use_type_invariant(&s);
        }
        s.drop_first = drop;
        s
    }

    /// Sets how many categories are allowed; 0 stands for any number.
    pub fn with_max_categories(self, max: usize) -> (r: Self)
        ensures
            r@ == (Columns { limit: max as nat, ..self@ }),
    {
        let mut s = self;
        proof {
            use_type_invariant(&s);
        }
        s.max_categories = max;
        s
    }

    /// How many categories are allowed.
    pub fn max_categories(&self) -> (r: usize)
        ensures
            r == self@.limit,
    {
        self.max_categories
    }

    /// Learns the categories. More distinct ones than are allowed is an error,
    /// which leaves the encoder as it was.
    pub fn fit(&mut self, categories: &[&str]) -> (r: Result<()>)
        ensures
            old(self)@.learns(final(self)@, categories@, r),
            r is Err ==> *final(self) == *old(self),
    {
        proof {
            use_type_invariant(&*self);
        }
        let unique = distinct_sorted(categories);
        if self.max_categories > 0 && unique.len() > self.max_categories {
            let found = decimal_string(unique.len() as u64);
            let limit = decimal_string(self.max_categories as u64);
            return Err(
                TreeBoostError::Config(
                    join5(
                        "OneHotEncoder: ",
                        found.as_str(),
                        " unique categories exceeds max_categories limit of ",
                        limit.as_str(),
                        ". High-cardinality one-hot encoding can cause memory explosion. Consider using TargetEncoder or increasing max_categories with with_max_categories().",
                    ),
                ),
            );
        }
        self.categories = unique;
        self.fitted = true;
        Ok(())
    }

    /// The number of columns.
    pub fn num_columns(&self) -> (r: usize)
        ensures
            r == self@.width(),
    {
        if self.drop_first && !self.categories.is_empty() {
            self.categories.len() - 1
        } else {
            self.categories.len()
        }
    }

    /// The names of the columns: the prefix and the category, joined by `_`.
    pub fn get_feature_names(&self, prefix: &str) -> (r: Vec<String>)
        requires
            self@.drop_first ==> self@.categories.len() > 0,
        ensures
            r.len() == self@.width(),
            forall|j: int|
                0 <= j < r.len() ==> (#[trigger] r[j])@ == prefix@ + "_"@ + self@.categories[j
                    + self@.dropped()],
    {
        let mut names: Vec<String> = Vec::new();
        let start: usize = if self.drop_first {
            1
        } else {
            0
        };
        let mut i: usize = start;
        while i < self.categories.len()
            invariant
                start == self@.dropped(),
                start <= i <= self.categories.len(),
                self@.categories == crate::text::texts(self.categories@),
                names.len() == i - start,
                forall|j: int|
                    0 <= j < names.len() ==> (#[trigger] names[j])@ == prefix@ + "_"@
                        + self@.categories[j + start],
            decreases self.categories.len() - i,
        {
            names.push(join3(prefix, "_", self.categories[i].as_str()));
            i = i + 1;
        }
        names
    }

    /// The row of one category.
    pub fn transform_single<V: Copy + From<u8>>(&self, category: &str) -> (r: Result<Vec<V>>)
        ensures
            match r {
                Ok(row) => {
                    &&& self@.fitted
                    &&& self@.accepts(category@)
                    &&& row.len() == self@.width()
                    &&& forall|j: int|
                        0 <= j < row.len() ==> crate::number::number_of(
                            self@.bit(category@, j),
                            #[trigger] row[j],
                        )
                },
                Err(e) => if !self@.fitted {
                    e.is_data(one_hot_not_fitted())
                } else {
                    !self@.accepts(category@) && e.is_data(unknown_category(category@))
                },
            },
    {
        if !self.fitted {
            return Err(
                TreeBoostError::Data("OneHotEncoder not fitted. Call fit() first.".to_owned()),
            );
        }
        proof {
            use_type_invariant(self);
        }
        let width: usize = self.num_columns();
        let mut row: Vec<V> = Vec::new();
        let mut k: usize = 0;
        while k < width
            invariant
                k <= width,
                row.len() == k,
                forall|j: int|
                    0 <= j < row.len() ==> crate::number::number_of(0u8, #[trigger] row[j]),
            decreases width - k,
        {
            row.push(V::from(0u8));
            k = k + 1;
        }
        match find(self.categories.as_slice(), category) {
            Ok(i) => {
                if !(self.drop_first && i == 0) {
                    let column: usize = if self.drop_first {
                        i - 1
                    } else {
                        i
                    };
                    row.set(column, V::from(1u8));
                }
            },
            Err(_) => {
                match self.handle_unknown {
                    UnknownStrategy::AllZeros => {},
                    UnknownStrategy::Error => {
                        return Err(
                            TreeBoostError::Data(join3("Unknown category '", category, "'")),
                        );
                    },
                }
            },
        }
        Ok(row)
    }

    /// The rows of a batch of categories, one after the other.
    pub fn transform<V: Copy + From<u8>>(&self, categories: &[&str]) -> (r: Result<Vec<V>>)
        ensures
            self@.codes(categories@, r),
    {
        if !self.fitted {
            return Err(
                TreeBoostError::Data("OneHotEncoder not fitted. Call fit() first.".to_owned()),
            );
        }
        let mut rows: Vec<V> = Vec::new();
        let ghost w = self@.width();
        let mut n: usize = 0;
        while n < categories.len()
            invariant
                self@.fitted,
                w == self@.width(),
                w >= 0,
                n <= categories.len(),
                rows.len() == n * w,
                forall|i: int, j: int|
                    0 <= i < n && 0 <= j < w ==> crate::number::number_of(
                        #[trigger] self@.bit(categories[i]@, j),
                        rows[i * w + j],
                    ),
                forall|i: int| 0 <= i < n ==> self@.accepts((#[trigger] categories[i])@),
            decreases categories.len() - n,
        {
            let ghost before = rows@;
            match self.transform_single::<V>(categories[n]) {
                Ok(row) => {
                    let mut row = row;
                    let ghost added = row@;
                    rows.append(&mut row);
                    proof {
                        assert((n + 1) * w == n * w + w) by (nonlinear_arith);
                        assert forall|i: int, j: int| 0 <= i < n + 1 && 0 <= j < w implies
                            crate::number::number_of(
                            #[trigger] self@.bit(categories[i]@, j),
                            rows[i * w + j],
                        ) by {
                            if i < n {
                                assert(i * w + j < n * w) by (nonlinear_arith)
                                    requires
                                        0 <= i < n,
                                        0 <= j < w,
                                ;
                                assert(0 <= i * w) by (nonlinear_arith)
                                    requires
                                        0 <= i,
                                        0 <= w,
                                ;
                                assert(rows[i * w + j] == before[i * w + j]);
                            } else {
                                assert(rows[i * w + j] == added[j]);
                            }
                        }
                    }
                },
                Err(e) => {
                    proof {
                        let items = crate::text::words(categories@);
                        assert forall|k: int| 0 <= k < n implies self@.accepts(
                            #[trigger] items[k],
                        ) by {
                            assert(items[k] == categories[k]@);
                        }
                        assert(self@.first_refused(items, n as int));
                    }
                    return Err(e);
                },
            }
            n = n + 1;
        }
        Ok(rows)
    }

    /// Learns the categories and encodes them.
    pub fn fit_transform<V: Copy + From<u8>>(&mut self, categories: &[&str]) -> (r: Result<Vec<V>>)
        ensures
            match r {
                Ok(rows) => {
                    &&& !old(self)@.too_many(crate::text::words(categories@))
                    &&& final(self)@ == (Columns {
                        categories: crate::text::distinct_of(crate::text::words(categories@)),
                        fitted: true,
                        ..old(self)@
                    })
                    &&& rows.len() == categories.len() * final(self)@.width()
                    &&& forall|i: int, j: int|
                        0 <= i < categories.len() && 0 <= j < final(self)@.width()
                            ==> crate::number::number_of(
                            #[trigger] final(self)@.bit(categories[i]@, j),
                            rows[i * final(self)@.width() + j],
                        )
                },
                Err(e) => {
                    &&& old(self)@.too_many(crate::text::words(categories@))
                    &&& *final(self) == *old(self)
                    &&& e.is_config(
                        too_many_categories(
                            crate::text::distinct_of(crate::text::words(categories@)).len(),
                            old(self)@.limit,
                        ),
                    )
                },
            },
    {
        match self.fit(categories) {
            Ok(_) => {
                proof {
                    let items = crate::text::words(categories@);
                    crate::text::lemma_distinct_exists(items);
                    assert forall|i: int| !(#[trigger] self@.first_refused(items, i)) by {
                        if 0 <= i < items.len() {
                            assert(items.contains(items[i]));
                            assert(self@.categories.contains(items[i]));
                        }
                    }
                }
                self.transform::<V>(categories)
            },
            Err(e) => Err(e),
        }
    }

    /// Whether `fit` has been called.
    pub fn is_fitted(&self) -> (r: bool)
        ensures
            r == self@.fitted,
    {
        self.fitted
    }

    /// The categories in order.
    pub fn categories(&self) -> (r: &[String])
        ensures
            crate::text::texts(r@) == self@.categories,
    {
        self.categories.as_slice()
    }
}

impl Clone for OneHotEncoder {
    fn clone(&self) -> (r: Self)
        ensures
            r@ == self@,
    {
        proof {
            use_type_invariant(self);
        }
        OneHotEncoder {
            categories: crate::text::copy_texts(self.categories.as_slice()),
            handle_unknown: self.handle_unknown,
            drop_first: self.drop_first,
            max_categories: self.max_categories,
            fitted: self.fitted,
        }
    }
}

impl Default for OneHotEncoder {
    /// The same as [`OneHotEncoder::new`].
    fn default() -> (r: Self)
        ensures
            r@ == (Columns {
                categories: Seq::empty(),
                unknown: UnknownStrategy::AllZeros,
                drop_first: false,
                limit: 100,
                fitted: false,
            }),
    {
        OneHotEncoder::new()
    }
}

/// At most one column of a row is 1; a known category has exactly one, unless
/// it is the one without a column.
pub proof fn law_one_hot(columns: Columns, category: Seq<char>)
    requires
        crate::text::sorted_distinct(columns.categories),
    ensures
        forall|i: int, j: int|
            columns.bit(category, i) == 1 && columns.bit(category, j) == 1 ==> i == j,
        columns.categories.contains(category) && !(columns.dropped() == 1 && category
            == columns.categories[0]) ==> exists|j: int|
            0 <= j < columns.width() && #[trigger] columns.bit(category, j) == 1,
        !columns.categories.contains(category) ==> forall|j: int|
            #[trigger] columns.bit(category, j) == 0,
{
    if columns.categories.contains(category) {
        let i = columns.categories.index_of(category);
        if columns.dropped() == 1 && i == 0 {
            assert(category == columns.categories[0]);
        } else {
            assert(columns.bit(category, i - columns.dropped()) == 1);
        }
    }
}

/// Two known categories with the same row are the same category.
pub proof fn law_one_hot_injective(columns: Columns, a: Seq<char>, b: Seq<char>)
    requires
        crate::text::sorted_distinct(columns.categories),
        columns.categories.contains(a),
        columns.categories.contains(b),
        forall|j: int|
            0 <= j < columns.width() ==> #[trigger] columns.bit(a, j) == columns.bit(b, j),
    ensures
        a == b,
{
    let i = columns.categories.index_of(a);
    let k = columns.categories.index_of(b);
    let d = columns.dropped();
    if i >= d {
        assert(columns.bit(a, i - d) == 1);
    }
    if k >= d {
        assert(columns.bit(b, k - d) == 1);
        assert(columns.bit(a, k - d) == columns.bit(b, k - d));
    }
}

} // verus!
