//! The shape of a tree: which nodes are forks, and where they lead.

use vstd::prelude::*;

verus! {

/// A node of a tree without what it holds.
pub enum Fork {
    /// A leaf.
    End,
    /// A node with two children, given by their places.
    Branch { left: int, right: int },
}

/// From node `i` every descent ends at a leaf within `n` steps.
pub open spec fn grounded(shape: Seq<Fork>, i: int, n: nat) -> bool
    decreases n,
{
    &&& 0 <= i < shape.len()
    &&& match shape[i] {
        Fork::End => true,
        Fork::Branch { left, right } => n > 0 && grounded(shape, left, (n - 1) as nat) && grounded(
            shape,
            right,
            (n - 1) as nat,
        ),
    }
}

/// Every descent from the root ends at a leaf.
pub open spec fn descends(shape: Seq<Fork>) -> bool {
    exists|n: nat| grounded(shape, 0, n)
}

/// A number of steps within which every descent from the root ends.
pub open spec fn height(shape: Seq<Fork>) -> nat {
    choose|n: nat| grounded(shape, 0, n)
}

/// A descent from node `i` may end at `leaf` within `n` steps, where `goes(k,
/// b)` says that the test at node `k` may come out as `b`, and `true` leads to
/// the left.
pub open spec fn arrives(
    shape: Seq<Fork>,
    goes: spec_fn(int, bool) -> bool,
    i: int,
    leaf: int,
    n: nat,
) -> bool
    decreases n,
{
    &&& 0 <= i < shape.len()
    &&& match shape[i] {
        Fork::End => i == leaf,
        Fork::Branch { left, right } => n > 0 && ((goes(i, true) && arrives(
            shape,
            goes,
            left,
            leaf,
            (n - 1) as nat,
        )) || (goes(i, false) && arrives(shape, goes, right, leaf, (n - 1) as nat))),
    }
}

/// The leaf at which the descent from node `i` ends, where `left_at(k)` says
/// that the test at node `k` leads to the left.
pub open spec fn leaf_from(shape: Seq<Fork>, left_at: spec_fn(int) -> bool, i: int, n: nat) -> int
    decreases n,
{
    match shape[i] {
        Fork::End => i,
        Fork::Branch { left, right } => if n == 0 {
            i
        } else if left_at(i) {
            leaf_from(shape, left_at, left, (n - 1) as nat)
        } else {
            leaf_from(shape, left_at, right, (n - 1) as nat)
        },
    }
}

/// The leaf at which the descent from the root ends.
pub open spec fn leaf_reached(shape: Seq<Fork>, left_at: spec_fn(int) -> bool) -> int {
    leaf_from(shape, left_at, 0, height(shape))
}

/// What a step of a descent leads to is grounded too.
pub proof fn lemma_grounded_step(shape: Seq<Fork>, i: int, n: nat)
    requires
        grounded(shape, i, n),
        shape[i] is Branch,
    ensures
        n > 0,
        grounded(shape, shape[i]->left, (n - 1) as nat),
        grounded(shape, shape[i]->right, (n - 1) as nat),
{
}

/// More steps do no harm.
pub proof fn lemma_grounded_more(shape: Seq<Fork>, i: int, n: nat, m: nat)
    requires
        grounded(shape, i, n),
        n <= m,
    ensures
        grounded(shape, i, m),
    decreases n,
{
    if shape[i] is Branch {
        lemma_grounded_more(shape, shape[i]->left, (n - 1) as nat, (m - 1) as nat);
        lemma_grounded_more(shape, shape[i]->right, (n - 1) as nat, (m - 1) as nat);
    }
}

/// The leaf of a descent is a leaf, and does not depend on how many steps are
/// allowed as long as they suffice.
pub proof fn lemma_leaf_from(
    shape: Seq<Fork>,
    left_at: spec_fn(int) -> bool,
    i: int,
    n: nat,
    m: nat,
)
    requires
        grounded(shape, i, n),
        grounded(shape, i, m),
    ensures
        leaf_from(shape, left_at, i, n) == leaf_from(shape, left_at, i, m),
        0 <= leaf_from(shape, left_at, i, n) < shape.len(),
        shape[leaf_from(shape, left_at, i, n)] is End,
    decreases n,
{
    if shape[i] is Branch {
        let next = if left_at(i) {
            shape[i]->left
        } else {
            shape[i]->right
        };
        lemma_leaf_from(shape, left_at, next, (n - 1) as nat, (m - 1) as nat);
    }
}

/// Where every test has one outcome, a descent arrives at one leaf.
pub proof fn lemma_arrives_at_leaf(
    shape: Seq<Fork>,
    goes: spec_fn(int, bool) -> bool,
    left_at: spec_fn(int) -> bool,
    i: int,
    leaf: int,
    n: nat,
)
    requires
        arrives(shape, goes, i, leaf, n),
        forall|k: int, b: bool|
            0 <= k < shape.len() && shape[k] is Branch && #[trigger] goes(k, b) ==> b == left_at(k),
    ensures
        leaf == leaf_from(shape, left_at, i, n),
        0 <= leaf < shape.len(),
        shape[leaf] is End,
    decreases n,
{
    if shape[i] is Branch {
        if goes(i, true) && arrives(shape, goes, shape[i]->left, leaf, (n - 1) as nat) {
            lemma_arrives_at_leaf(shape, goes, left_at, shape[i]->left, leaf, (n - 1) as nat);
        } else {
            lemma_arrives_at_leaf(shape, goes, left_at, shape[i]->right, leaf, (n - 1) as nat);
        }
    }
}

/// A descent ends at a leaf.
pub proof fn lemma_arrival_is_leaf(
    shape: Seq<Fork>,
    goes: spec_fn(int, bool) -> bool,
    i: int,
    leaf: int,
    n: nat,
)
    requires
        arrives(shape, goes, i, leaf, n),
    ensures
        0 <= leaf < shape.len(),
        shape[leaf] is End,
    decreases n,
{
    if shape[i] is Branch {
        if goes(i, true) && arrives(shape, goes, shape[i]->left, leaf, (n - 1) as nat) {
            lemma_arrival_is_leaf(shape, goes, shape[i]->left, leaf, (n - 1) as nat);
        } else {
            lemma_arrival_is_leaf(shape, goes, shape[i]->right, leaf, (n - 1) as nat);
        }
    }
}

/// More steps do no harm to a descent.
pub proof fn lemma_arrives_more(
    shape: Seq<Fork>,
    goes: spec_fn(int, bool) -> bool,
    i: int,
    leaf: int,
    n: nat,
    m: nat,
)
    requires
        arrives(shape, goes, i, leaf, n),
        n <= m,
    ensures
        arrives(shape, goes, i, leaf, m),
    decreases n,
{
    if shape[i] is Branch {
        if goes(i, true) && arrives(shape, goes, shape[i]->left, leaf, (n - 1) as nat) {
            lemma_arrives_more(shape, goes, shape[i]->left, leaf, (n - 1) as nat, (m - 1) as nat);
        } else {
            lemma_arrives_more(shape, goes, shape[i]->right, leaf, (n - 1) as nat, (m - 1) as nat);
        }
    }
}

/// A descent is still possible where tests may come out in more ways.
pub proof fn lemma_arrives_wider(
    shape: Seq<Fork>,
    goes: spec_fn(int, bool) -> bool,
    wider: spec_fn(int, bool) -> bool,
    i: int,
    leaf: int,
    n: nat,
)
    requires
        arrives(shape, goes, i, leaf, n),
        forall|k: int, b: bool| #[trigger] goes(k, b) ==> wider(k, b),
    ensures
        arrives(shape, wider, i, leaf, n),
    decreases n,
{
    if shape[i] is Branch {
        if goes(i, true) && arrives(shape, goes, shape[i]->left, leaf, (n - 1) as nat) {
            lemma_arrives_wider(shape, goes, wider, shape[i]->left, leaf, (n - 1) as nat);
        } else {
            lemma_arrives_wider(shape, goes, wider, shape[i]->right, leaf, (n - 1) as nat);
        }
    }
}

/// Every branch leads to nodes that come after it.
pub open spec fn downward(shape: Seq<Fork>) -> bool {
    forall|i: int|
        0 <= i < shape.len() && (#[trigger] shape[i]) is Branch ==> i < shape[i]->left
            < shape.len() && i < shape[i]->right < shape.len()
}

/// Where branches lead to later nodes, every descent ends.
pub proof fn lemma_downward_grounded(shape: Seq<Fork>, i: int)
    requires
        downward(shape),
        0 <= i < shape.len(),
    ensures
        grounded(shape, i, (shape.len() - i) as nat),
    decreases shape.len() - i,
{
    if shape[i] is Branch {
        let l = shape[i]->left;
        let r = shape[i]->right;
        lemma_downward_grounded(shape, l);
        lemma_downward_grounded(shape, r);
        lemma_grounded_more(shape, l, (shape.len() - l) as nat, (shape.len() - i - 1) as nat);
        lemma_grounded_more(shape, r, (shape.len() - r) as nat, (shape.len() - i - 1) as nat);
    }
}

/// The number of leaves among the first `n` nodes.
pub open spec fn leaf_count(shape: Seq<Fork>) -> nat
    decreases shape.len(),
{
    if shape.len() == 0 {
        0
    } else {
        leaf_count(shape.drop_last()) + (if shape.last() is End {
            1nat
        } else {
            0nat
        })
    }
}

/// A new leaf counts.
pub proof fn lemma_leaf_count_push(shape: Seq<Fork>, f: Fork)
    ensures
        leaf_count(shape.push(f)) == leaf_count(shape) + (if f is End {
            1nat
        } else {
            0nat
        }),
{
    assert(shape.push(f).drop_last() =~= shape);
}

/// A leaf that becomes a branch no longer counts.
pub proof fn lemma_leaf_count_split(shape: Seq<Fork>, i: int, f: Fork)
    requires
        0 <= i < shape.len(),
        shape[i] is End,
        f is Branch,
    ensures
        leaf_count(shape.update(i, f)) + 1 == leaf_count(shape),
    decreases shape.len(),
{
    let last = shape.len() - 1;
    if i == last {
        assert(shape.update(i, f).drop_last() =~= shape.drop_last());
    } else {
        assert(shape.update(i, f).drop_last() =~= shape.drop_last().update(i, f));
        lemma_leaf_count_split(shape.drop_last(), i, f);
    }
}

/// There are at most as many leaves as nodes.
pub proof fn lemma_leaf_count_bounded(shape: Seq<Fork>)
    ensures
        leaf_count(shape) <= shape.len(),
    decreases shape.len(),
{
    if shape.len() > 0 {
        lemma_leaf_count_bounded(shape.drop_last());
    }
}

} // verus!
