//! Where the training rows end up in a tree.

use crate::tree::shape::Fork;
use vstd::multiset::Multiset;
use vstd::prelude::*;

verus! {

/// The rows at a node that a test leads to the left, or to the right.
pub open spec fn side(
    rows: Multiset<usize>,
    left_at: spec_fn(int, usize) -> bool,
    node: int,
    left: bool,
) -> Multiset<usize> {
    rows.filter(|r: usize| left_at(node, r) == left)
}

/// `rows_at` holds the rows at each node of a tree whose root has the rows
/// `all`: each branch hands every row to the child to which its test leads, and
/// every node but the root is the child of a branch.
pub open spec fn routed(
    shape: Seq<Fork>,
    left_at: spec_fn(int, usize) -> bool,
    rows_at: Seq<Multiset<usize>>,
    all: Multiset<usize>,
) -> bool {
    &&& shape.len() > 0
    &&& rows_at.len() == shape.len()
    &&& rows_at[0] == all
    &&& crate::tree::shape::downward(shape)
    &&& forall|i: int|
        0 <= i < shape.len() && (#[trigger] shape[i]) is Branch ==> rows_at[shape[i]->left] == side(
            rows_at[i],
            left_at,
            i,
            true,
        ) && rows_at[shape[i]->right] == side(rows_at[i], left_at, i, false)
    &&& forall|k: int| 1 <= k < shape.len() ==> #[trigger] has_parent(shape, k)
}

/// Node `k` is a child of an earlier branch.
pub open spec fn has_parent(shape: Seq<Fork>, k: int) -> bool {
    exists|p: int| is_parent(shape, p, k)
}

/// Node `p` is a branch with child `k`.
pub open spec fn is_parent(shape: Seq<Fork>, p: int, k: int) -> bool {
    0 <= p < k && shape[p] is Branch && (shape[p]->left == k || shape[p]->right == k)
}

/// The tests of one row.
pub open spec fn tests_of(left_at: spec_fn(int, usize) -> bool, row: usize) -> spec_fn(int) -> bool {
    |i: int| left_at(i, row)
}

/// A row at some node goes on from there to the same leaf as from the root.
proof fn lemma_row_goes_on(
    shape: Seq<Fork>,
    left_at: spec_fn(int, usize) -> bool,
    rows_at: Seq<Multiset<usize>>,
    all: Multiset<usize>,
    k: int,
    row: usize,
)
    requires
        routed(shape, left_at, rows_at, all),
        0 <= k < shape.len(),
        rows_at[k].count(row) > 0,
    ensures
        crate::tree::shape::leaf_from(
            shape,
            tests_of(left_at, row),
            k,
            (shape.len() - k) as nat,
        ) == crate::tree::shape::leaf_from(shape, tests_of(left_at, row), 0, shape.len()),
        rows_at[k].count(row) == all.count(row),
    decreases k,
{
    broadcast use vstd::multiset::group_multiset_axioms;

    let left = tests_of(left_at, row);
    crate::tree::shape::lemma_downward_grounded(shape, k);
    if k > 0 {
        assert(has_parent(shape, k));
        let p = choose|p: int| is_parent(shape, p, k);
        assert(shape[p] is Branch);
        assert(rows_at[shape[p]->left].count(row) == (if left_at(p, row) {
            rows_at[p].count(row)
        } else {
            0
        }));
        assert(rows_at[shape[p]->right].count(row) == (if !left_at(p, row) {
            rows_at[p].count(row)
        } else {
            0
        }));
        lemma_row_goes_on(shape, left_at, rows_at, all, p, row);
        crate::tree::shape::lemma_downward_grounded(shape, p);
        let next = if left_at(p, row) {
            shape[p]->left
        } else {
            shape[p]->right
        };
        assert(next == k);
        let n = (shape.len() - p - 1) as nat;
        crate::tree::shape::lemma_grounded_step(shape, p, (shape.len() - p) as nat);
        crate::tree::shape::lemma_leaf_from(shape, left, k, n, (shape.len() - k) as nat);
    }
}

/// A row at some node is at the leaf to which it goes on from there.
proof fn lemma_row_arrives(
    shape: Seq<Fork>,
    left_at: spec_fn(int, usize) -> bool,
    rows_at: Seq<Multiset<usize>>,
    all: Multiset<usize>,
    k: int,
    row: usize,
    n: nat,
)
    requires
        routed(shape, left_at, rows_at, all),
        crate::tree::shape::grounded(shape, k, n),
    ensures
        rows_at[crate::tree::shape::leaf_from(shape, tests_of(left_at, row), k, n)].count(row)
            == rows_at[k].count(row),
    decreases n,
{
    broadcast use vstd::multiset::group_multiset_axioms;

    if shape[k] is Branch {
        let next = if left_at(k, row) {
            shape[k]->left
        } else {
            shape[k]->right
        };
        lemma_row_arrives(shape, left_at, rows_at, all, next, row, (n - 1) as nat);
    }
}

/// The rows at a leaf are those whose descent ends there.
pub proof fn lemma_rows_at_leaf(
    shape: Seq<Fork>,
    left_at: spec_fn(int, usize) -> bool,
    rows_at: Seq<Multiset<usize>>,
    all: Multiset<usize>,
    leaf: int,
)
    requires
        routed(shape, left_at, rows_at, all),
        0 <= leaf < shape.len(),
        shape[leaf] is End,
    ensures
        crate::tree::shape::descends(shape),
        rows_at[leaf] == all.filter(
            |r: usize|
                crate::tree::shape::leaf_reached(shape, tests_of(left_at, r)) == leaf,
        ),
{
    broadcast use vstd::multiset::group_multiset_axioms;

    crate::tree::shape::lemma_downward_grounded(shape, 0);
    let h = crate::tree::shape::height(shape);
    let n = shape.len();
    let expected = all.filter(
        |r: usize| crate::tree::shape::leaf_reached(shape, tests_of(left_at, r)) == leaf,
    );
    assert forall|r: usize| rows_at[leaf].count(r) == expected.count(r) by {
        let left = tests_of(left_at, r);
        crate::tree::shape::lemma_leaf_from(shape, left, 0, h, n);
        if rows_at[leaf].count(r) > 0 {
            lemma_row_goes_on(shape, left_at, rows_at, all, leaf, r);
        } else {
            lemma_row_arrives(shape, left_at, rows_at, all, 0, r, n);
        }
    }
    assert(rows_at[leaf] =~= expected);
}

/// Splitting a leaf keeps the rows where they belong.
pub proof fn lemma_split_routed(
    shape: Seq<Fork>,
    left_at: spec_fn(int, usize) -> bool,
    after: spec_fn(int, usize) -> bool,
    rows_at: Seq<Multiset<usize>>,
    all: Multiset<usize>,
    k: int,
)
    requires
        routed(shape, left_at, rows_at, all),
        0 <= k < shape.len(),
        shape[k] is End,
        forall|i: int, r: usize|
            0 <= i < shape.len() && i != k ==> #[trigger] after(i, r) == left_at(i, r),
    ensures
        routed(
            shape.update(
                k,
                Fork::Branch { left: shape.len() as int, right: (shape.len() + 1) as int },
            ).push(Fork::End).push(Fork::End),
            after,
            rows_at.push(side(rows_at[k], after, k, true)).push(side(rows_at[k], after, k, false)),
            all,
        ),
{
    let n = shape.len() as int;
    let now = shape.update(k, Fork::Branch { left: n, right: n + 1 }).push(Fork::End).push(
        Fork::End,
    );
    let rows = rows_at.push(side(rows_at[k], after, k, true)).push(
        side(rows_at[k], after, k, false),
    );
    assert forall|i: int| 0 <= i < now.len() && (#[trigger] now[i]) is Branch implies rows[now[i]->left]
        == side(rows[i], after, i, true) && rows[now[i]->right] == side(rows[i], after, i, false) by {
        if i != k {
            assert(now[i] == shape[i]);
            let f = |r: usize| after(i, r) == true;
            let g = |r: usize| left_at(i, r) == true;
            assert(f =~= g);
            let f2 = |r: usize| after(i, r) == false;
            let g2 = |r: usize| left_at(i, r) == false;
            assert(f2 =~= g2);
        }
    }
    assert forall|j: int| 1 <= j < now.len() implies #[trigger] has_parent(now, j) by {
        if j < n {
            assert(has_parent(shape, j));
            let p = choose|p: int| is_parent(shape, p, j);
            assert(now[p] == shape[p]);
            assert(is_parent(now, p, j));
        } else {
            assert(is_parent(now, k, j));
        }
    }
    assert forall|i: int| 0 <= i < now.len() && (#[trigger] now[i]) is Branch implies i
        < now[i]->left < now.len() && i < now[i]->right < now.len() by {
        if i != k {
            assert(now[i] == shape[i]);
        }
    }
}

/// Filtering a list filters what it contains.
pub proof fn lemma_filter_multiset(rows: Seq<usize>, keep: spec_fn(usize) -> bool)
    ensures
        rows.filter(keep).to_multiset() == rows.to_multiset().filter(keep),
    decreases rows.len(),
{
    broadcast use vstd::multiset::group_multiset_axioms;
    broadcast use vstd::seq_lib::group_to_multiset_ensures;

    reveal(Seq::filter);
    if rows.len() == 0 {
        assert(rows.filter(keep) =~= rows);
        assert(rows.to_multiset() =~= Multiset::empty());
        assert(rows.to_multiset().filter(keep) =~= Multiset::empty());
    } else {
        let fewer = rows.drop_last();
        let last = rows.last();
        lemma_filter_multiset(fewer, keep);
        assert(rows =~= fewer.push(last));
        assert(rows.to_multiset() =~= fewer.to_multiset().insert(last));
        if keep(last) {
            assert(rows.filter(keep) =~= fewer.filter(keep).push(last));
        } else {
            assert(rows.filter(keep) =~= fewer.filter(keep));
        }
        assert(rows.filter(keep).to_multiset() =~= rows.to_multiset().filter(keep));
    }
}

} // verus!
