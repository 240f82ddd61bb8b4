//! Rows that are divided in place.

use crate::tree::dataset::BinnedDataset;
use vstd::prelude::*;

verus! {

/// The rows of all nodes of a tree in one list, those of each node side by
/// side.
#[derive(Debug, Clone)]
pub struct RowPartitioner {
    rows: Vec<usize>,
}

impl View for RowPartitioner {
    type V = Seq<usize>;

    closed spec fn view(&self) -> Seq<usize> {
        self.rows@
    }
}

/// `left` holds, in some order, those of `rows` that a test leads to the left,
/// and `right` the others.
pub open spec fn divides(
    column: Seq<u8>,
    rows: Seq<usize>,
    threshold: u8,
    left: Seq<usize>,
    right: Seq<usize>,
) -> bool {
    &&& left.to_multiset() == rows.to_multiset().filter(
        |r: usize| column[r as int] <= threshold,
    )
    &&& right.to_multiset() == rows.to_multiset().filter(
        |r: usize| !(column[r as int] <= threshold),
    )
}

/// What two entries hold together does not change when they change places.
proof fn lemma_swap_multiset(s: Seq<usize>, i: int, j: int)
    requires
        0 <= i < s.len(),
        0 <= j < s.len(),
    ensures
        s.update(i, s[j]).update(j, s[i]).to_multiset() == s.to_multiset(),
{
    broadcast use vstd::multiset::group_multiset_axioms;
    broadcast use vstd::seq_lib::group_to_multiset_ensures;

    if i == j {
        assert(s.update(i, s[j]).update(j, s[i]) =~= s);
    } else {
        vstd::seq_lib::to_multiset_update(s, i, s[j]);
        vstd::seq_lib::to_multiset_update(s.update(i, s[j]), j, s[i]);
        assert(s.contains(s[i]));
        assert(s.contains(s[j]));
        assert(s.update(i, s[j]).update(j, s[i]).to_multiset() =~= s.to_multiset());
    }
}

/// A list whose first part passes a test and whose second part fails it is
/// divided by the test.
proof fn lemma_divided(column: Seq<u8>, all: Seq<usize>, threshold: u8, mid: int)
    requires
        0 <= mid <= all.len(),
        forall|k: int| 0 <= k < mid ==> column[(#[trigger] all[k]) as int] <= threshold,
        forall|k: int| mid <= k < all.len() ==> column[(#[trigger] all[k]) as int] > threshold,
    ensures
        divides(
            column,
            all,
            threshold,
            all.subrange(0, mid),
            all.subrange(mid, all.len() as int),
        ),
{
    broadcast use vstd::multiset::group_multiset_axioms;
    broadcast use vstd::seq_lib::group_to_multiset_ensures;

    let left = all.subrange(0, mid);
    let right = all.subrange(mid, all.len() as int);
    let l = left.to_multiset();
    let r = right.to_multiset();
    assert(left + right =~= all);
    vstd::seq_lib::lemma_multiset_commutative(left, right);
    assert(all.to_multiset() =~= l.add(r));
    let keep_l = |x: usize| column[x as int] <= threshold;
    let keep_r = |x: usize| !(column[x as int] <= threshold);
    assert forall|x: usize| l.count(x) > 0 implies keep_l(x) by {
        assert(left.contains(x));
        let k = choose|k: int| 0 <= k < left.len() && left[k] == x;
        assert(all[k] == x);
    }
    assert forall|x: usize| r.count(x) > 0 implies keep_r(x) by {
        assert(right.contains(x));
        let k = choose|k: int| 0 <= k < right.len() && right[k] == x;
        assert(all[mid + k] == x);
    }
    assert(l =~= all.to_multiset().filter(keep_l));
    assert(r =~= all.to_multiset().filter(keep_r));
}

/// Dividing a list makes two lists of it: they hold as many rows as it did, and
/// only rows that it held.
pub proof fn law_division_is_complete(
    column: Seq<u8>,
    rows: Seq<usize>,
    threshold: u8,
    left: Seq<usize>,
    right: Seq<usize>,
)
    requires
        divides(column, rows, threshold, left, right),
    ensures
        left.to_multiset().add(right.to_multiset()) == rows.to_multiset(),
        left.len() + right.len() == rows.len(),
        forall|k: int| 0 <= k < left.len() ==> rows.contains(#[trigger] left[k]),
        forall|k: int| 0 <= k < right.len() ==> rows.contains(#[trigger] right[k]),
        forall|k: int| 0 <= k < left.len() ==> column[(#[trigger] left[k]) as int] <= threshold,
        forall|k: int| 0 <= k < right.len() ==> column[(#[trigger] right[k]) as int] > threshold,
{
    broadcast use vstd::multiset::group_multiset_axioms;
    broadcast use vstd::seq_lib::group_to_multiset_ensures;

    assert(left.to_multiset().add(right.to_multiset()) =~= rows.to_multiset());
    assert(left.to_multiset().add(right.to_multiset()).len() == left.to_multiset().len()
        + right.to_multiset().len());
    assert(rows.to_multiset().len() == rows.len());
    assert forall|k: int| 0 <= k < left.len() implies rows.contains(#[trigger] left[k])
        && column[left[k] as int] <= threshold by {
        assert(left.contains(left[k]));
        assert(left.to_multiset().count(left[k]) > 0);
        assert(rows.to_multiset().count(left[k]) > 0);
    }
    assert forall|k: int| 0 <= k < right.len() implies rows.contains(#[trigger] right[k])
        && column[right[k] as int] > threshold by {
        assert(right.contains(right[k]));
        assert(right.to_multiset().count(right[k]) > 0);
        assert(rows.to_multiset().count(right[k]) > 0);
    }
}

impl RowPartitioner {
    /// All rows, at the root.
    pub fn new(initial_rows: Vec<usize>) -> (r: Self)
        ensures
            r@ == initial_rows@,
    {
        RowPartitioner { rows: initial_rows }
    }

    /// The rows at the places from `start` up to `end`.
    pub fn get_rows(&self, start: usize, end: usize) -> (r: &[usize])
        requires
            start <= end <= self@.len(),
        ensures
            r@ == self@.subrange(start as int, end as int),
    {
        vstd::slice::slice_subrange(self.rows.as_slice(), start, end)
    }

    /// Divides the rows at the places from `start` up to `end` by a test: those
    /// that it leads to the left come first. Returns the place of the first one
    /// that it leads to the right.
    pub fn partition_in_place(
        &mut self,
        dataset: &BinnedDataset,
        start: usize,
        end: usize,
        feature_idx: usize,
        bin_threshold: u8,
    ) -> (mid: usize)
        requires
            start <= end <= old(self)@.len(),
            feature_idx < dataset@.len(),
            forall|i: int| start <= i < end ==> (#[trigger] old(self)@[i]) < dataset.rows(),
        ensures
            start <= mid <= end,
            final(self)@.len() == old(self)@.len(),
            forall|i: int|
                (0 <= i < start || end <= i < old(self)@.len()) ==> #[trigger] final(self)@[i]
                    == old(self)@[i],
            divides(
                dataset@[feature_idx as int],
                old(self)@.subrange(start as int, end as int),
                bin_threshold,
                final(self)@.subrange(start as int, mid as int),
                final(self)@.subrange(mid as int, end as int),
            ),
    {
        let column = dataset.feature_column(feature_idx);
        let ghost before = self@;
        let ghost part = before.subrange(start as int, end as int);
        let mut left: usize = start;
        let mut right: usize = end;
        while left < right
            invariant
                start <= left <= right <= end <= before.len(),
                column@ == dataset@[feature_idx as int],
                column.len() == dataset.rows(),
                part == before.subrange(start as int, end as int),
                self@.len() == before.len(),
                forall|i: int|
                    (0 <= i < start || end <= i < before.len()) ==> #[trigger] self@[i]
                        == before[i],
                self@.subrange(start as int, end as int).to_multiset() == part.to_multiset(),
                forall|i: int| start <= i < end ==> (#[trigger] self@[i]) < column.len(),
                forall|i: int|
                    start <= i < left ==> column[(#[trigger] self@[i]) as int] <= bin_threshold,
                forall|i: int|
                    right <= i < end ==> column[(#[trigger] self@[i]) as int] > bin_threshold,
            decreases right - left,
        {
            let row_idx: usize = self.rows[left];
            assert(row_idx == self@[left as int]);
            if column[row_idx] <= bin_threshold {
                left = left + 1;
            } else {
                right = right - 1;
                let other_idx: usize = self.rows[right];
                assert(other_idx == self@[right as int]);
                if column[other_idx] <= bin_threshold {
                    let ghost had = self@;
                    self.rows.set(left, other_idx);
                    self.rows.set(right, row_idx);
                    proof {
                        let range = had.subrange(start as int, end as int);
                        let i = left - start;
                        let j = right - start;
                        lemma_swap_multiset(range, i, j);
                        assert(self@.subrange(start as int, end as int) =~= range.update(
                            i,
                            range[j],
                        ).update(j, range[i]));
                    }
                    left = left + 1;
                }
            }
        }
        proof {
            let now = self@.subrange(start as int, end as int);
            lemma_divided(column@, now, bin_threshold, left - start);
            assert(now.subrange(0, left - start) =~= self@.subrange(start as int, left as int));
            assert(now.subrange(left - start, now.len() as int) =~= self@.subrange(
                left as int,
                end as int,
            ));
        }
        left
    }
}

} // verus!
