//! The frequency encoder: a category becomes the number of times it was seen.

use crate::error::{Result, TreeBoostError};
use crate::functions::Functions;
use crate::number::Number;
use crate::preprocessing::incremental::IncrementalEncoder;
use crate::text::{decimal_string, find, join5};
use crate::text_map::TextMap;
use vstd::prelude::*;

verus! {

/// How often `c` occurs in `items`.
pub open spec fn occurrences(items: Seq<Seq<char>>, c: Seq<char>) -> nat
    decreases items.len(),
{
    if items.len() == 0 {
        0
    } else {
        occurrences(items.drop_last(), c) + (if items.last() == c {
            1nat
        } else {
            0nat
        })
    }
}

/// The number of occurrences of each string of `items`.
pub open spec fn tally(items: Seq<Seq<char>>) -> Map<Seq<char>, nat> {
    Map::new(|c: Seq<char>| items.contains(c), |c: Seq<char>| occurrences(items, c))
}

/// The counts `m`, increased by what occurs in `items`.
pub open spec fn add_tally(m: Map<Seq<char>, nat>, items: Seq<Seq<char>>) -> Map<Seq<char>, nat> {
    Map::new(
        |c: Seq<char>| m.contains_key(c) || items.contains(c),
        |c: Seq<char>|
            occurrences(items, c) + (if m.contains_key(c) {
                m[c]
            } else {
                0
            }),
    )
}

/// The value of a [`FrequencyEncoder`].
#[verifier::ext_equal]
pub struct Frequencies<V> {
    /// How often each category was seen.
    pub counts: Map<Seq<char>, nat>,
    /// How many categories were seen, repetitions counted.
    pub total: nat,
    /// What an unknown category is encoded as, if it can be.
    pub unknown: Option<V>,
    /// Whether counts are divided by the total.
    pub normalize: bool,
    /// Whether the encoder was fitted.
    pub fitted: bool,
}

impl<V> Frequencies<V> {
    /// What a category is encoded as, if it can be.
    pub open spec fn code<F: Functions<V>>(self, category: Seq<char>, f: &F) -> Option<V> where
        V: Number,
     {
        if self.counts.contains_key(category) {
            let count = crate::functions::count_of::<V, F>(f, self.counts[category] as usize);
            if self.normalize {
                Some(
                    crate::number::over(
                        count,
                        crate::functions::count_of::<V, F>(f, self.total as usize),
                    ),
                )
            } else {
                Some(count)
            }
        } else {
            self.unknown
        }
    }

    /// The category has a code.
    pub open spec fn has_code(self, category: Seq<char>) -> bool {
        self.counts.contains_key(category) || self.unknown is Some
    }

    /// Category `i` of `items` is the first without a code.
    pub open spec fn first_uncoded(self, items: Seq<Seq<char>>, i: int) -> bool {
        &&& 0 <= i < items.len()
        &&& !self.has_code(items[i])
        &&& forall|k: int| 0 <= k < i ==> self.has_code(#[trigger] items[k])
    }

    /// What comes of turning a list of categories into numbers.
    pub open spec fn codes<F: Functions<V>>(
        self,
        categories: Seq<&str>,
        f: &F,
        r: Result<Vec<V>>,
    ) -> bool where V: Number {
        match r {
            Ok(values) => {
                &&& self.fitted
                &&& values.len() == categories.len()
                &&& forall|i: int|
                    0 <= i < values.len() ==> self.code(categories[i]@, f) == Some(
                        #[trigger] values[i],
                    )
            },
            Err(e) => if !self.fitted {
                e.is_data(frequency_not_fitted())
            } else {
                exists|i: int|
                    {
                        &&& #[trigger] self.first_uncoded(
                            crate::text::words(categories),
                            i,
                        )
                        &&& e.is_data(no_frequency_for(categories[i]@, i))
                    }
            },
        }
    }
}

/// The complaint about an encoder that is used before it was fitted.
pub open spec fn frequency_not_fitted() -> Seq<char> {
    "FrequencyEncoder not fitted. Call fit() first."@
}

/// The complaint about category `i` of a batch, which has no code.
pub open spec fn no_frequency_for(category: Seq<char>, i: int) -> Seq<char> {
    "Unknown category '"@ + category + "' at index "@ + crate::text::decimal(i as nat)
        + " and no unknown_value set"@
}

/// Maps a category to its number of occurrences, or to its share of them.
#[derive(Debug)]
pub struct FrequencyEncoder<V> {
    /// The categories seen, sorted.
    names: Vec<String>,
    /// How often each was seen.
    tallies: Vec<usize>,
    /// How many were seen in all.
    total_count: usize,
    /// What an unknown category is encoded as; `None` makes it an error.
    unknown_value: Option<V>,
    /// Whether counts are divided by the total.
    normalize: bool,
    /// Whether `fit` has been called.
    fitted: bool,
}

/// The counts that two parallel lists stand for.
pub open spec fn counts_of(names: Seq<Seq<char>>, tallies: Seq<usize>) -> Map<Seq<char>, nat> {
    Map::new(|c: Seq<char>| names.contains(c), |c: Seq<char>| tallies[names.index_of(c)] as nat)
}

impl<V> View for FrequencyEncoder<V> {
    type V = Frequencies<V>;

    closed spec fn view(&self) -> Frequencies<V> {
        Frequencies {
            counts: counts_of(crate::text::texts(self.names@), self.tallies@),
            total: self.total_count as nat,
            unknown: self.unknown_value,
            normalize: self.normalize,
            fitted: self.fitted,
        }
    }
}

/// Adds a batch to two parallel lists of names and tallies.
fn count_all(names: &mut Vec<String>, tallies: &mut Vec<usize>, categories: &[&str], bound: usize)
    requires
        crate::text::sorted_distinct(crate::text::texts(old(names)@)),
        old(names).len() == old(tallies).len(),
        forall|i: int| 0 <= i < old(tallies).len() ==> (#[trigger] old(tallies)[i]) <= bound,
        bound + categories.len() <= usize::MAX,
    ensures
        crate::text::sorted_distinct(crate::text::texts(final(names)@)),
        final(names).len() == final(tallies).len(),
        forall|i: int|
            0 <= i < final(tallies).len() ==> (#[trigger] final(tallies)[i]) <= bound
                + categories.len(),
        counts_of(crate::text::texts(final(names)@), final(tallies)@) == add_tally(
            counts_of(crate::text::texts(old(names)@), old(tallies)@),
            crate::text::words(categories@),
        ),
{
    let ghost start = counts_of(crate::text::texts(names@), tallies@);
    let ghost items = crate::text::words(categories@);
    let mut n: usize = 0;
    assert(counts_of(crate::text::texts(names@), tallies@) =~= add_tally(start, items.take(0)));
    while n < categories.len()
        invariant
            n <= categories.len(),
            items == crate::text::words(categories@),
            crate::text::sorted_distinct(crate::text::texts(names@)),
            names.len() == tallies.len(),
            forall|i: int| 0 <= i < tallies.len() ==> (#[trigger] tallies[i]) <= bound + n,
            bound + categories.len() <= usize::MAX,
            counts_of(crate::text::texts(names@), tallies@) == add_tally(
                start,
                items.take(n as int),
            ),
        decreases categories.len() - n,
    {
        let ghost list = crate::text::texts(names@);
        let ghost had = tallies@;
        let ghost key = categories[n as int]@;
        let ghost seen = items.take(n as int);
        let ghost now = items.take(n + 1);
        proof {
            assert(now.drop_last() =~= seen);
            assert(now.last() == key);
            assert(now =~= seen.push(key));
            assert forall|c: Seq<char>| now.contains(c) <==> seen.contains(c) || c == key by {
                crate::text::lemma_push_contains(seen, key, c);
            }
            assert forall|c: Seq<char>| list.contains(c) implies 0 <= list.index_of(c) < list.len()
                && list[list.index_of(c)] == c by {}
            assert forall|c: Seq<char>| #[trigger]
                list.contains(c) <==> (start.contains_key(c) || seen.contains(c)) by {
                assert(counts_of(list, had).contains_key(c) <==> add_tally(
                    start,
                    seen,
                ).contains_key(c));
            }
            assert forall|c: Seq<char>| list.contains(c) implies (had[list.index_of(c)] as nat)
                == add_tally(start, seen)[c] by {
                assert(counts_of(list, had)[c] == add_tally(start, seen)[c]);
            }
        }
        let item: &str = categories[n];
        match find(names.as_slice(), item) {
            Ok(i) => {
                let count: usize = tallies[i];
                tallies.set(i, count + 1);
                proof {
                    assert(list[i as int] == key);
                    assert forall|c: Seq<char>| list.contains(c) && c != key implies list.index_of(c)
                        != i by {}
                    assert(counts_of(list, tallies@) =~= add_tally(start, now));
                }
            },
            Err(p) => {
                names.insert(p, item.to_owned());
                tallies.insert(p, 1);
                proof {
                    let longer = crate::text::texts(names@);
                    assert(longer =~= list.insert(p as int, key));
                    crate::text::lemma_insert_keeps_sorted(list, p as int, key);
                    assert(!list.contains(key));
                    lemma_no_occurrence(seen, key);
                    assert forall|c: Seq<char>| longer.contains(c) <==> list.contains(c) || c
                        == key by {
                        crate::text::lemma_insert_contains(list, p as int, key, c);
                    }
                    crate::text::lemma_place_of(longer, p as int);
                    assert forall|c: Seq<char>| list.contains(c) implies longer.index_of(c) == (
                    if list.index_of(c) < p {
                        list.index_of(c)
                    } else {
                        list.index_of(c) + 1
                    }) by {
                        let k = list.index_of(c);
                        let m: int = if k < p {
                            k
                        } else {
                            k + 1
                        };
                        assert(longer[m] == c);
                        crate::text::lemma_place_of(longer, m);
                    }
                    assert(counts_of(longer, tallies@) =~= add_tally(start, now));
                }
            },
        }
        n = n + 1;
    }
    assert(items.take(n as int) =~= items);
}

proof fn lemma_no_occurrence(items: Seq<Seq<char>>, c: Seq<char>)
    requires
        !items.contains(c),
    ensures
        occurrences(items, c) == 0,
    decreases items.len(),
{
    if items.len() > 0 {
        assert(items[items.len() - 1] == items.last());
        assert forall|k: int| 0 <= k < items.len() - 1 implies items.drop_last()[k] != c by {
            assert(items.drop_last()[k] == items[k]);
        }
        lemma_no_occurrence(items.drop_last(), c);
    }
}

proof fn lemma_occurrences_bounded(items: Seq<Seq<char>>, c: Seq<char>)
    ensures
        occurrences(items, c) <= items.len(),
        items.contains(c) ==> occurrences(items, c) > 0,
    decreases items.len(),
{
    if items.len() > 0 {
        lemma_occurrences_bounded(items.drop_last(), c);
        if items.contains(c) && items.last() != c {
            let k = choose|k: int| 0 <= k < items.len() && items[k] == c;
            assert(items.drop_last()[k] == c);
        }
    }
}

impl<V> FrequencyEncoder<V> {
    /// The names are sorted without repetition, each has its tally, and no
    /// tally exceeds the total.
    #[verifier::type_invariant]
    pub closed spec fn wf(&self) -> bool {
        &&& crate::text::sorted_distinct(crate::text::texts(self.names@))
        &&& self.names.len() == self.tallies.len()
        &&& forall|i: int|
            0 <= i < self.tallies.len() ==> (#[trigger] self.tallies[i]) <= self.total_count
    }
}

impl<V: Copy> FrequencyEncoder<V> {
    /// What an unknown category is encoded as; `None` makes it an error.
    pub fn unknown_value(&self) -> (r: Option<V>)
        ensures
            r == self@.unknown,
    {
        self.unknown_value
    }

    /// Whether counts are divided by the total.
    pub fn normalizes(&self) -> (r: bool)
        ensures
            r == self@.normalize,
    {
        self.normalize
    }

    /// Sets what an unknown category is encoded as; `None` makes it an error.
    pub fn with_unknown_value(self, value: Option<V>) -> (r: Self)
        ensures
            r@ == (Frequencies { unknown: value, ..self@ }),
    {
        let mut s = self;
        proof {
            use_type_invariant(&s);
        }
        s.unknown_value = value;
        s
    }

    /// Sets whether counts are divided by the total.
    pub fn with_normalize(self, normalize: bool) -> (r: Self)
        ensures
            r@ == (Frequencies { normalize, ..self@ }),
    {
        let mut s = self;
        proof {
            use_type_invariant(&s);
        }
        s.normalize = normalize;
        s
    }

    /// Counts the categories, and forgets what was counted before.
    pub fn fit(&mut self, categories: &[&str])
        ensures
            final(self)@ == (Frequencies {
                counts: tally(crate::text::words(categories@)),
                total: categories.len() as nat,
                fitted: true,
                ..old(self)@
            }),
    {
        proof {
            use_type_invariant(&*self);
        }
        let mut names: Vec<String> = Vec::new();
        let mut tallies: Vec<usize> = Vec::new();
        let ghost items = crate::text::words(categories@);
        let ghost empty = counts_of(crate::text::texts(names@), tallies@);
        count_all(&mut names, &mut tallies, categories, 0);
        proof {
            assert(empty.dom() =~= Set::empty());
            assert(add_tally(empty, items) =~= tally(items));
        }
        *self = FrequencyEncoder {
            names,
            tallies,
            total_count: categories.len(),
            unknown_value: self.unknown_value,
            normalize: self.normalize,
            fitted: true,
        };
    }

    /// What one category is encoded as: `None` before `fit`, and for an unknown
    /// category without a value of its own.
    pub fn transform_single<F: Functions<V>>(&self, category: &str, f: &F) -> (r: Option<V>)
        where V: Number
        requires
            crate::number::arithmetic::<V>(),
            crate::functions::computes(f),
        ensures
            r == (if self@.fitted {
                self@.code(category@, f)
            } else {
                None
            }),
    {
        if !self.fitted {
            return None;
        }
        proof {
            use_type_invariant(self);
        }
        match find(self.names.as_slice(), category) {
            Ok(i) => {
                assert(self@.counts[category@] as usize == self.tallies[i as int]);
                assert(self@.total as usize == self.total_count);
                let count: V = f.count(self.tallies[i]);
                if self.normalize {
                    let total: V = f.count(self.total_count);
                    Some(count / total)
                } else {
                    Some(count)
                }
            },
            Err(_) => self.unknown_value,
        }
    }

    /// What a batch of categories is encoded as.
    pub fn transform<F: Functions<V>>(&self, categories: &[&str], f: &F) -> (r: Result<Vec<V>>)
        where V: Number
        requires
            crate::number::arithmetic::<V>(),
            crate::functions::computes(f),
        ensures
            self@.codes(categories@, f, r),
    {
        if !self.fitted {
            return Err(
                TreeBoostError::Data("FrequencyEncoder not fitted. Call fit() first.".to_owned()),
            );
        }
        let mut values: Vec<V> = Vec::new();
        let mut i: usize = 0;
        while i < categories.len()
            invariant
                self@.fitted,
                crate::number::arithmetic::<V>(),
                crate::functions::computes(f),
                i <= categories.len(),
                values.len() == i,
                forall|k: int|
                    0 <= k < i ==> self@.code(categories[k]@, f) == Some(#[trigger] values[k]),
            decreases categories.len() - i,
        {
            let category: &str = categories[i];
            match self.transform_single(category, f) {
                Some(value) => values.push(value),
                None => {
                    let index = decimal_string(i as u64);
                    proof {
                        let items = crate::text::words(categories@);
                        assert forall|k: int| 0 <= k < i implies self@.has_code(
                            #[trigger] items[k],
                        ) by {
                            assert(self@.code(categories[k]@, f) == Some(values[k]));
                        }
                        assert(self@.first_uncoded(items, i as int));
                    }
                    return Err(
                        TreeBoostError::Data(
                            join5(
                                "Unknown category '",
                                category,
                                "' at index ",
                                index.as_str(),
                                " and no unknown_value set",
                            ),
                        ),
                    );
                },
            }
            i = i + 1;
        }
        Ok(values)
    }

    /// Counts the categories and encodes them.
    pub fn fit_transform<F: Functions<V>>(&mut self, categories: &[&str], f: &F) -> (r: Result<
        Vec<V>,
    >)
        where V: Number
        requires
            crate::number::arithmetic::<V>(),
            crate::functions::computes(f),
        ensures
            final(self)@ == (Frequencies {
                counts: tally(crate::text::words(categories@)),
                total: categories.len() as nat,
                fitted: true,
                ..old(self)@
            }),
            r is Ok,
            r->Ok_0.len() == categories.len(),
            forall|i: int|
                0 <= i < r->Ok_0.len() ==> final(self)@.code(categories[i]@, f) == Some(
                    #[trigger] r->Ok_0[i],
                ),
    {
        self.fit(categories);
        proof {
            let items = crate::text::words(categories@);
            assert forall|i: int| !(#[trigger] self@.first_uncoded(items, i)) by {
                if 0 <= i < items.len() {
                    assert(items.contains(items[i]));
                }
            }
        }
        self.transform(categories, f)
    }

    /// Whether `fit` has been called.
    pub fn is_fitted(&self) -> (r: bool)
        ensures
            r == self@.fitted,
    {
        self.fitted
    }

    /// The number of distinct categories.
    pub fn num_categories(&self) -> (r: usize)
        ensures
            self@.counts.dom().finite(),
            r == self@.counts.len(),
    {
        proof {
            use_type_invariant(self);
            let list = crate::text::texts(self.names@);
            assert forall|i: int, j: int| 0 <= i < j < list.len() implies list[i] != list[j] by {
                crate::text::lemma_text_irreflexive(list[i]);
            }
            assert(list.no_duplicates());
            list.unique_seq_to_set();
            assert(self@.counts.dom() =~= list.to_set());
            vstd::seq_lib::seq_to_set_is_finite(list);
        }
        self.names.len()
    }

    /// How often each category was seen.
    pub fn counts(&self) -> (r: TextMap<usize>)
        ensures
            r@.dom() == self@.counts.dom(),
            forall|c: Seq<char>| #[trigger]
                r@.contains_key(c) ==> r@[c] == self@.counts[c],
    {
        proof {
            use_type_invariant(self);
        }
        let ghost list = crate::text::texts(self.names@);
        let mut map: TextMap<usize> = TextMap::new();
        let mut i: usize = 0;
        proof {
            assert forall|a: int, b: int| 0 <= a < b < list.len() implies list[a] != list[b] by {
                crate::text::lemma_text_irreflexive(list[a]);
            }
        }
        while i < self.names.len()
            invariant
                i <= self.names.len(),
                self.names.len() == self.tallies.len(),
                list == crate::text::texts(self.names@),
                forall|a: int, b: int| 0 <= a < b < list.len() ==> list[a] != list[b],
                forall|c: Seq<char>| #[trigger]
                    map@.contains_key(c) <==> list.take(i as int).contains(c),
                forall|k: int| 0 <= k < i ==> map@[#[trigger] list[k]] == self.tallies@[k],
            decreases self.names.len() - i,
        {
            let ghost before = map@;
            assert(list[i as int] == self.names@[i as int]@);
            map.insert(self.names[i].as_str(), self.tallies[i]);
            proof {
                assert forall|c: Seq<char>| #[trigger]
                    map@.contains_key(c) <==> list.take(i + 1).contains(c) by {
                    let longer = list.take(i + 1);
                    if list.take(i as int).contains(c) {
                        let k = choose|k: int| 0 <= k < i && list.take(i as int)[k] == c;
                        assert(longer[k] == c);
                    }
                    assert(longer[i as int] == list[i as int]);
                    if longer.contains(c) && c != list[i as int] {
                        let k = choose|k: int| 0 <= k < i + 1 && longer[k] == c;
                        assert(list.take(i as int)[k] == c);
                    }
                }
            }
            i = i + 1;
        }
        proof {
            assert(list.take(i as int) =~= list);
            assert forall|c: Seq<char>| #[trigger] map@.contains_key(c) implies map@[c]
                == self@.counts[c] by {
                let k = list.index_of(c);
                assert(list[k] == c);
            }
            assert(map@.dom() =~= self@.counts.dom());
        }
        map
    }

    /// How often `category` was seen.
    pub fn count(&self, category: &str) -> (r: usize)
        ensures
            r == (if self@.counts.contains_key(category@) {
                self@.counts[category@]
            } else {
                0
            }),
    {
        proof {
            use_type_invariant(self);
        }
        match find(self.names.as_slice(), category) {
            Ok(i) => self.tallies[i],
            Err(_) => 0,
        }
    }
}

impl<V: Copy + From<u8>> FrequencyEncoder<V> {
    /// An encoder that was not fitted yet; unknown categories become 0.
    pub fn new() -> (r: Self)
        ensures
            r@.counts == Map::<Seq<char>, nat>::empty(),
            r@.total == 0,
            !r@.normalize,
            !r@.fitted,
            r@.unknown is Some,
            crate::number::number_of(0u8, r@.unknown->Some_0),
    {
        let r = FrequencyEncoder {
            names: Vec::new(),
            tallies: Vec::new(),
            total_count: 0,
            unknown_value: Some(V::from(0u8)),
            normalize: false,
            fitted: false,
        };
        assert(r@.counts =~= Map::<Seq<char>, nat>::empty());
        r
    }
}

impl<V: Clone> Clone for FrequencyEncoder<V> {
    fn clone(&self) -> (r: Self)
        ensures
            r@ == (Frequencies { unknown: r@.unknown, ..self@ }),
            match self@.unknown {
                Some(v) => r@.unknown is Some && cloned(v, r@.unknown->0),
                None => r@.unknown is None,
            },
    {
        proof {
            use_type_invariant(self);
        }
        let unknown_value: Option<V> = match &self.unknown_value {
            Some(v) => Some(v.clone()),
            None => None,
        };
        FrequencyEncoder {
            names: crate::text::copy_texts(self.names.as_slice()),
            tallies: crate::tree::vector_tree::copy_list(self.tallies.as_slice()),
            total_count: self.total_count,
            unknown_value,
            normalize: self.normalize,
            fitted: self.fitted,
        }
    }
}

impl<V: Copy + From<u8>> Default for FrequencyEncoder<V> {
    /// The same as [`FrequencyEncoder::new`].
    fn default() -> (r: Self)
        ensures
            r@.counts == Map::<Seq<char>, nat>::empty(),
            r@.total == 0,
            !r@.normalize,
            !r@.fitted,
            r@.unknown is Some,
            crate::number::number_of(0u8, r@.unknown->Some_0),
    {
        FrequencyEncoder::new()
    }
}

/// The complaint about more categories than can be counted.
pub open spec fn too_many_samples() -> Seq<char> {
    "FrequencyEncoder has seen too many samples"@
}

impl<V: Copy> IncrementalEncoder for FrequencyEncoder<V> {
    /// Adds a batch to the counts. It fails, and changes nothing, only if the
    /// total does not fit a machine word.
    fn partial_fit(&mut self, categories: &[&str]) -> (r: Result<()>)
        ensures
            match r {
                Ok(_) => {
                    &&& old(self)@.total + categories.len() <= usize::MAX
                    &&& final(self)@ == (Frequencies {
                        counts: add_tally(old(self)@.counts, crate::text::words(categories@)),
                        total: (old(self)@.total + categories.len()) as nat,
                        fitted: true,
                        ..old(self)@
                    })
                },
                Err(e) => {
                    &&& old(self)@.total + categories.len() > usize::MAX
                    &&& *final(self) == *old(self)
                    &&& e.is_data(too_many_samples())
                },
            },
    {
        proof {
            use_type_invariant(&*self);
        }
        if categories.len() > usize::MAX - self.total_count {
            return Err(
                TreeBoostError::Data("FrequencyEncoder has seen too many samples".to_owned()),
            );
        }
        let mut names = self.names.clone();
        let mut tallies = self.tallies.clone();
        proof {
            assert(crate::text::texts(names@) =~= crate::text::texts(self.names@));
            assert(tallies@ =~= self.tallies@);
        }
        count_all(&mut names, &mut tallies, categories, self.total_count);
        *self = FrequencyEncoder {
            names,
            tallies,
            total_count: self.total_count + categories.len(),
            unknown_value: self.unknown_value,
            normalize: self.normalize,
            fitted: true,
        };
        Ok(())
    }

    /// How many categories were seen, repetitions counted.
    fn n_samples(&self) -> (r: u64)
        ensures
            r == self@.total,
    {
        self.total_count as u64
    }
}

proof fn lemma_occurrences_split(a: Seq<Seq<char>>, b: Seq<Seq<char>>, c: Seq<char>)
    ensures
        occurrences(a + b, c) == occurrences(a, c) + occurrences(b, c),
    decreases b.len(),
{
    if b.len() == 0 {
        assert(a + b =~= a);
    } else {
        assert((a + b).drop_last() =~= a + b.drop_last());
        assert((a + b).last() == b.last());
        lemma_occurrences_split(a, b.drop_last(), c);
    }
}

/// Counting in two batches is the same as counting everything at once.
pub proof fn law_batches_add_up(a: Seq<Seq<char>>, b: Seq<Seq<char>>)
    ensures
        add_tally(tally(a), b) == tally(a + b),
        add_tally(Map::empty(), a) == tally(a),
{
    assert forall|c: Seq<char>| (a + b).contains(c) <==> a.contains(c) || b.contains(c) by {
        if a.contains(c) {
            let k = choose|k: int| 0 <= k < a.len() && a[k] == c;
            assert((a + b)[k] == c);
        }
        if b.contains(c) {
            let k = choose|k: int| 0 <= k < b.len() && b[k] == c;
            assert((a + b)[a.len() + k] == c);
        }
        if (a + b).contains(c) {
            let k = choose|k: int| 0 <= k < (a + b).len() && (a + b)[k] == c;
            if k < a.len() {
                assert(a[k] == c);
            } else {
                assert(b[k - a.len()] == c);
            }
        }
    }
    assert forall|c: Seq<char>| (a + b).contains(c) implies add_tally(tally(a), b)[c] == tally(
        a + b,
    )[c] by {
        lemma_occurrences_split(a, b, c);
        if !a.contains(c) {
            lemma_no_occurrence(a, c);
        }
    }
    assert(add_tally(tally(a), b) =~= tally(a + b));
    assert(add_tally(Map::empty(), a) =~= tally(a));
}

/// Every category that was counted was seen at least once, and at most as
/// often as there were samples.
pub proof fn law_counts_are_positive(items: Seq<Seq<char>>, c: Seq<char>)
    requires
        tally(items).contains_key(c),
    ensures
        0 < tally(items)[c] <= items.len(),
{
    lemma_occurrences_bounded(items, c);
}

/// The code of a category is its share of all samples, or its count; a category
/// that occurs more often has the greater code.
pub proof fn law_codes_follow_counts<V: Number, F: Functions<V>>(
    worth: spec_fn(V) -> real,
    f: &F,
    learnt: Frequencies<V>,
    a: Seq<char>,
    b: Seq<char>,
)
    requires
        crate::exact::exact(worth),
        crate::exact::counts(f, worth),
        learnt.counts.contains_key(a),
        learnt.counts.contains_key(b),
        learnt.counts[a] <= learnt.total,
        learnt.counts[b] <= learnt.total,
        0 < learnt.total <= usize::MAX,
    ensures
        learnt.code(a, f) is Some,
        learnt.normalize ==> worth(learnt.code(a, f)->0) * (learnt.total as real) == (
        learnt.counts[a] as real),
        !learnt.normalize ==> worth(learnt.code(a, f)->0) == (learnt.counts[a] as real),
        learnt.counts[a] < learnt.counts[b] <==> worth(learnt.code(a, f)->0) < worth(
            learnt.code(b, f)->0,
        ),
{
    let n = learnt.total as real;
    let (x, y) = (learnt.counts[a] as real, learnt.counts[b] as real);
    crate::exact::lemma_quotient(x, n);
    crate::exact::lemma_quotient(y, n);
    let (p, q) = (x / n, y / n);
    if p < q {
        assert(p * n < q * n) by (nonlinear_arith)
            requires
                p < q,
                n > 0real,
        ;
    } else {
        assert(p * n >= q * n) by (nonlinear_arith)
            requires
                p >= q,
                n > 0real,
        ;
    }
}

} // verus!
