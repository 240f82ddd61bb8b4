//! Every combination of a few values of each parameter.

use crate::functions::Functions;
use crate::number::Number;
use crate::text_map::TextMap;
use crate::tree::vector_tree::copy_list;
use crate::tuner::grid::generate_param_values;
use crate::tuner::space::ParameterSpace;
use vstd::arithmetic::power::pow;
use vstd::prelude::*;

verus! {

/// All rows that take one entry from each list, the last list running fastest.
pub open spec fn product<A>(lists: Seq<Seq<A>>) -> Seq<Seq<A>>
    decreases lists.len(),
{
    if lists.len() == 0 {
        seq![Seq::empty()]
    } else {
        extended(product(lists.drop_last()), lists.last())
    }
}

/// Every row of a list with every one of some entries behind it.
pub open spec fn extended<A>(rows: Seq<Seq<A>>, entries: Seq<A>) -> Seq<Seq<A>> {
    Seq::new(
        rows.len() * entries.len(),
        |m: int| rows[m / entries.len() as int].push(entries[m % entries.len() as int]),
    )
}

/// There are as many combinations as the product of the lengths says.
pub proof fn law_product_count<A>(lists: Seq<Seq<A>>, points: nat)
    requires
        forall|p: int| 0 <= p < lists.len() ==> (#[trigger] lists[p]).len() == points,
    ensures
        product(lists).len() == pow(points as int, lists.len()),
    decreases lists.len(),
{
    if lists.len() == 0 {
        vstd::arithmetic::power::lemma_pow0(points as int);
    } else {
        let rest = lists.drop_last();
        assert forall|p: int| 0 <= p < rest.len() implies (#[trigger] rest[p]).len()
            == points by {
            assert(rest[p] == lists[p]);
        }
        law_product_count(rest, points);
        reveal(pow);
        assert(pow(points as int, lists.len()) == points * pow(points as int, rest.len()));
        assert(product(rest).len() * points == points * product(rest).len()) by (nonlinear_arith);
    }
}

/// Every row takes its entries from the lists, one from each.
pub proof fn law_product_rows<A>(lists: Seq<Seq<A>>, m: int)
    requires
        0 <= m < product(lists).len(),
    ensures
        product(lists)[m].len() == lists.len(),
        forall|p: int|
            0 <= p < lists.len() ==> (#[trigger] lists[p]).contains(product(lists)[m][p]),
    decreases lists.len(),
{
    if lists.len() > 0 {
        let rest = lists.drop_last();
        let last = lists.last();
        let rows = product(rest);
        let n = last.len() as int;
        lemma_place(m, rows.len() as int, n);
        law_product_rows(rest, m / n);
        let row = product(lists)[m];
        assert(row == rows[m / n].push(last[m % n]));
        assert forall|p: int| 0 <= p < lists.len() implies (#[trigger] lists[p]).contains(
            row[p],
        ) by {
            if p < rest.len() {
                assert(rest[p] == lists[p]);
                assert(row[p] == rows[m / n][p]);
            } else {
                assert(last[m % n] == row[p]);
            }
        }
    }
}

proof fn lemma_place(m: int, rows: int, n: int)
    requires
        0 <= m < rows * n,
        rows >= 0,
        n >= 0,
    ensures
        n > 0,
        0 <= m / n < rows,
        0 <= m % n < n,
        m == (m / n) * n + m % n,
{
    assert(n > 0) by (nonlinear_arith)
        requires
            0 <= m < rows * n,
            n >= 0,
    ;
    assert(m == n * (m / n) + m % n && 0 <= m % n < n) by (nonlinear_arith)
        requires
            n > 0,
    ;
    assert(0 <= m / n < rows) by (nonlinear_arith)
        requires
            0 <= m < rows * n,
            n > 0,
    ;
    assert((m / n) * n == n * (m / n)) by (nonlinear_arith);
}

/// Every combination of entries is one of the rows.
pub proof fn law_product_is_complete<A>(lists: Seq<Seq<A>>, row: Seq<A>)
    requires
        row.len() == lists.len(),
        forall|p: int| 0 <= p < lists.len() ==> (#[trigger] lists[p]).contains(row[p]),
    ensures
        product(lists).contains(row),
    decreases lists.len(),
{
    if lists.len() == 0 {
        assert(row =~= Seq::empty());
        assert(product(lists)[0] == row);
    } else {
        let rest = lists.drop_last();
        let last = lists.last();
        let front = row.drop_last();
        assert forall|p: int| 0 <= p < rest.len() implies (#[trigger] rest[p]).contains(
            front[p],
        ) by {
            assert(lists[p].contains(row[p]));
        }
        law_product_is_complete(rest, front);
        let rows = product(rest);
        let i = choose|i: int| 0 <= i < rows.len() && rows[i] == front;
        assert(lists[lists.len() - 1].contains(row[lists.len() - 1]));
        let j = choose|j: int| 0 <= j < last.len() && last[j] == row.last();
        let n = last.len() as int;
        let m = i * n + j;
        assert(0 <= m < rows.len() * n) by (nonlinear_arith)
            requires
                0 <= i < rows.len(),
                0 <= j < n,
                m == i * n + j,
        ;
        assert(m / n == i && m % n == j) by (nonlinear_arith)
            requires
                0 <= j < n,
                m == i * n + j,
                i >= 0,
        ;
        assert(row =~= front.push(row.last()));
        assert(product(lists)[m] == row);
    }
}

/// Row `a` comes behind row `b`, going by their entries from place `k` on: the
/// first place at which they differ decides.
pub open spec fn row_above<V: Number>(a: Seq<V>, b: Seq<V>, k: int) -> bool
    decreases a.len() - k,
{
    if k >= a.len() {
        false
    } else if crate::number::above(a[k], b[k]) {
        true
    } else if crate::number::below(a[k], b[k]) {
        false
    } else {
        row_above(a, b, k + 1)
    }
}

/// Two rows have equal entries.
pub open spec fn same_row<V: Number>(a: Seq<V>, b: Seq<V>) -> bool {
    &&& a.len() == b.len()
    &&& forall|k: int| 0 <= k < a.len() ==> crate::number::same(#[trigger] a[k], b[k])
}

/// No row comes behind a later one.
pub open spec fn rows_ascend<V: Number>(rows: Seq<Seq<V>>) -> bool {
    forall|i: int, j: int|
        0 <= i <= j < rows.len() ==> !row_above(#[trigger] rows[i], #[trigger] rows[j], 0)
}

/// `sorted` holds the rows of `rows` in ascending order.
pub open spec fn sorts_rows<V: Number>(rows: Seq<Seq<V>>, sorted: Seq<Seq<V>>) -> bool {
    &&& rows_ascend(sorted)
    &&& sorted.to_multiset() == rows.to_multiset()
}

/// The rows without those that equal the last one kept before them.
pub open spec fn distinct_rows<V: Number>(rows: Seq<Seq<V>>) -> Seq<Seq<V>>
    decreases rows.len(),
{
    if rows.len() == 0 {
        Seq::empty()
    } else {
        let kept = distinct_rows(rows.drop_last());
        if kept.len() > 0 && same_row(rows.last(), kept.last()) {
            kept
        } else {
            kept.push(rows.last())
        }
    }
}

/// All rows have so many entries.
pub open spec fn rows_of_width<V>(rows: Seq<Seq<V>>, width: nat) -> bool {
    forall|i: int| 0 <= i < rows.len() ==> (#[trigger] rows[i]).len() == width
}

/// A row of numbers none of which is missing.
pub open spec fn all_present<V: Number>(row: Seq<V>) -> bool {
    forall|k: int| 0 <= k < row.len() ==> !crate::number::missing(#[trigger] row[k])
}

proof fn lemma_not_above_chains<V: Number>(a: Seq<V>, b: Seq<V>, c: Seq<V>, k: int)
    requires
        crate::number::ranked::<V>(),
        crate::number::mirrored::<V>(),
        a.len() == b.len(),
        b.len() == c.len(),
        all_present(a),
        all_present(b),
        all_present(c),
        0 <= k,
        !row_above(a, b, k),
        !row_above(b, c, k),
    ensures
        !row_above(a, c, k),
    decreases a.len() - k,
{
    if k < a.len() {
        assert(!crate::number::missing(a[k]));
        assert(!crate::number::missing(b[k]));
        assert(!crate::number::missing(c[k]));
        assert(!crate::number::above(a[k], b[k]));
        assert(!crate::number::above(b[k], c[k]));
        assert(!crate::number::above(a[k], c[k]));
        if !crate::number::below(a[k], c[k]) {
            assert(!crate::number::above(c[k], a[k]));
            assert(!crate::number::below(a[k], b[k])) by {
                if crate::number::below(a[k], b[k]) {
                    assert(crate::number::above(b[k], a[k]));
                    assert(!crate::number::above(b[k], c[k]) && !crate::number::above(c[k], a[k]));
                }
            }
            assert(!crate::number::below(b[k], c[k])) by {
                if crate::number::below(b[k], c[k]) {
                    assert(crate::number::above(c[k], b[k]));
                    assert(!crate::number::above(c[k], a[k]) && !crate::number::above(a[k], b[k]));
                }
            }
            lemma_not_above_chains(a, b, c, k + 1);
        }
    }
}

/// Computes [`row_above`].
fn is_row_above<V: Number>(a: &[V], b: &[V]) -> (r: bool)
    requires
        crate::number::arithmetic::<V>(),
        a@.len() == b@.len(),
    ensures
        r == row_above(a@, b@, 0),
{
    let mut k: usize = 0;
    while k < a.len()
        invariant
            crate::number::arithmetic::<V>(),
            a@.len() == b@.len(),
            k <= a.len(),
            row_above(a@, b@, 0) == row_above(a@, b@, k as int),
        decreases a.len() - k,
    {
        if a[k] > b[k] {
            return true;
        }
        if a[k] < b[k] {
            return false;
        }
        k = k + 1;
    }
    false
}

/// Computes [`same_row`].
fn is_same_row<V: Number>(a: &[V], b: &[V]) -> (r: bool)
    requires
        crate::number::arithmetic::<V>(),
        a@.len() == b@.len(),
    ensures
        r == same_row(a@, b@),
{
    let mut k: usize = 0;
    while k < a.len()
        invariant
            crate::number::arithmetic::<V>(),
            a@.len() == b@.len(),
            k <= a.len(),
            forall|i: int| 0 <= i < k ==> crate::number::same(#[trigger] a@[i], b@[i]),
        decreases a.len() - k,
    {
        if !(a[k] == b[k]) {
            assert(!crate::number::same(a@[k as int], b@[k as int]));
            return false;
        }
        k = k + 1;
    }
    true
}

/// The rows that a list of lists holds.
pub open spec fn rows_in<V>(list: Seq<Vec<V>>) -> Seq<Seq<V>> {
    list.map_values(|row: Vec<V>| row@)
}

/// Every row with every one of some entries behind it.
fn extend_rows<V: Copy>(rows: &[Vec<V>], entries: &[V]) -> (r: Vec<Vec<V>>)
    ensures
        rows_in(r@) == extended(rows_in(rows@), entries@),
{
    let ghost before = rows_in(rows@);
    let ghost n = entries@.len() as int;
    let mut out: Vec<Vec<V>> = Vec::new();
    let mut i: usize = 0;
    assert(0 * n == 0) by (nonlinear_arith);
    while i < rows.len()
        invariant
            before == rows_in(rows@),
            n == entries@.len(),
            i <= rows.len(),
            out@.len() == i * n,
            forall|m: int|
                0 <= m < out@.len() ==> (#[trigger] out@[m])@ == before[m / n].push(
                    entries@[m % n],
                ),
        decreases rows.len() - i,
    {
        let mut j: usize = 0;
        while j < entries.len()
            invariant
                before == rows_in(rows@),
                n == entries@.len(),
                i < rows.len(),
                j <= entries.len(),
                out@.len() == i * n + j,
                forall|m: int|
                    0 <= m < out@.len() ==> (#[trigger] out@[m])@ == before[m / n].push(
                        entries@[m % n],
                    ),
            decreases entries.len() - j,
        {
            let mut row: Vec<V> = copy_list(rows[i].as_slice());
            row.push(entries[j]);
            proof {
                let m = i * n + j;
                assert(m / n == i && m % n == j) by (nonlinear_arith)
                    requires
                        0 <= j < n,
                        m == i * n + j,
                        i >= 0,
                ;
                assert(before[i as int] == rows@[i as int]@);
                assert(row@ == before[m / n].push(entries@[m % n]));
            }
            out.push(row);
            j = j + 1;
        }
        assert((i + 1) * n == i * n + n) by (nonlinear_arith);
        i = i + 1;
    }
    proof {
        assert(rows_in(out@) =~= extended(before, entries@));
    }
    out
}

/// All rows that take one entry from each list.
pub fn all_rows<V: Copy>(lists: &[Vec<V>]) -> (r: Vec<Vec<V>>)
    ensures
        rows_in(r@) == product(rows_in(lists@)),
{
    let ghost all = rows_in(lists@);
    let mut rows: Vec<Vec<V>> = Vec::new();
    rows.push(Vec::new());
    let mut p: usize = 0;
    proof {
        assert(all.take(0) =~= Seq::empty());
        assert(rows@[0]@ =~= Seq::<V>::empty());
        assert(rows_in(rows@) =~= seq![Seq::<V>::empty()]);
    }
    while p < lists.len()
        invariant
            all == rows_in(lists@),
            p <= lists.len(),
            rows_in(rows@) == product(all.take(p as int)),
        decreases lists.len() - p,
    {
        proof {
            assert(all.take(p + 1).drop_last() =~= all.take(p as int));
            assert(all.take(p + 1).last() == lists@[p as int]@);
        }
        rows = extend_rows(rows.as_slice(), lists[p].as_slice());
        p = p + 1;
    }
    assert(all.take(p as int) =~= all);
    rows
}

/// Sorts rows; rows in the same place of the order keep their order.
fn sort_rows<V: Number>(rows: &[Vec<V>], Ghost(width): Ghost<nat>) -> (r: Vec<Vec<V>>)
    requires
        crate::number::arithmetic::<V>(),
        crate::number::ordered::<V>(),
        crate::number::ranked::<V>(),
        crate::number::mirrored::<V>(),
        rows_of_width(rows_in(rows@), width),
        forall|i: int| 0 <= i < rows@.len() ==> all_present((#[trigger] rows@[i])@),
    ensures
        sorts_rows(rows_in(rows@), rows_in(r@)),
        rows_of_width(rows_in(r@), width),
{
    let ghost all = rows_in(rows@);
    let mut sorted: Vec<Vec<V>> = Vec::new();
    let mut n: usize = 0;
    proof {
        assert(all.take(0) =~= Seq::empty());
        assert(rows_in(sorted@) =~= Seq::empty());
    }
    while n < rows.len()
        invariant
            crate::number::arithmetic::<V>(),
            crate::number::ordered::<V>(),
            crate::number::ranked::<V>(),
            crate::number::mirrored::<V>(),
            all == rows_in(rows@),
            rows_of_width(all, width),
            forall|i: int| 0 <= i < rows@.len() ==> all_present((#[trigger] rows@[i])@),
            n <= rows.len(),
            sorted@.len() == n,
            rows_ascend(rows_in(sorted@)),
            rows_in(sorted@).to_multiset() == all.take(n as int).to_multiset(),
            forall|i: int|
                0 <= i < sorted@.len() ==> all_present((#[trigger] sorted@[i])@)
                    && sorted@[i]@.len() == width,
        decreases rows.len() - n,
    {
        let row: Vec<V> = copy_list(rows[n].as_slice());
        let ghost had = sorted@;
        assert(all[n as int] == rows@[n as int]@);
        let mut p: usize = sorted.len();
        while p > 0 && is_row_above(sorted[p - 1].as_slice(), row.as_slice())
            invariant
                crate::number::arithmetic::<V>(),
                sorted@ == had,
                p <= sorted@.len(),
                row@.len() == width,
                forall|i: int| 0 <= i < sorted@.len() ==> (#[trigger] sorted@[i])@.len() == width,
                forall|i: int|
                    p <= i < sorted@.len() ==> row_above((#[trigger] sorted@[i])@, row@, 0),
            decreases p,
        {
            p = p - 1;
        }
        let ghost v = row@;
        sorted.insert(p, row);
        proof {
            let old_rows = rows_in(had);
            let new_rows = rows_in(sorted@);
            assert(new_rows =~= old_rows.insert(p as int, v));
            assert forall|i: int| 0 <= i < p implies !row_above(#[trigger] old_rows[i], v, 0) by {
                assert(!row_above(old_rows[p - 1], v, 0));
                assert(!row_above(old_rows[i], old_rows[p - 1], 0));
                assert(all_present(had[i]@) && all_present(had[p - 1]@));
                lemma_not_above_chains(old_rows[i], old_rows[p - 1], v, 0);
            }
            assert(!row_above(v, v, 0)) by {
                lemma_not_above_itself(v, 0);
            }
            assert forall|i: int, j: int| 0 <= i <= j < new_rows.len() implies !row_above(
                #[trigger] new_rows[i],
                #[trigger] new_rows[j],
                0,
            ) by {
                lemma_insert_ascends(old_rows, v, p as int, i, j, width);
            }
            lemma_insert_multiset(old_rows, v, p as int);
            assert(all.take(n + 1) =~= all.take(n as int).push(v));
            lemma_push_multiset(old_rows, v);
            lemma_push_multiset(all.take(n as int), v);
            assert forall|i: int| 0 <= i < sorted@.len() implies all_present(
                (#[trigger] sorted@[i])@,
            ) && sorted@[i]@.len() == width by {
                if i < p {
                    assert(sorted@[i] == had[i]);
                } else if i > p {
                    assert(sorted@[i] == had[i - 1]);
                }
            }
        }
        n = n + 1;
    }
    proof {
        assert(all.take(n as int) =~= all);
        assert forall|i: int| 0 <= i < rows_in(sorted@).len() implies (#[trigger] rows_in(
            sorted@,
        )[i]).len() == width by {
            assert(sorted@[i]@.len() == width);
        }
    }
    sorted
}

proof fn lemma_not_above_itself<V: Number>(a: Seq<V>, k: int)
    requires
        crate::number::ordered::<V>(),
        0 <= k,
    ensures
        !row_above(a, a, k),
    decreases a.len() - k,
{
    if k < a.len() {
        assert(!crate::number::above(a[k], a[k]));
        lemma_not_above_itself(a, k + 1);
    }
}

proof fn lemma_above_is_one_way<V: Number>(a: Seq<V>, b: Seq<V>, k: int)
    requires
        crate::number::ordered::<V>(),
        crate::number::mirrored::<V>(),
        a.len() == b.len(),
        0 <= k,
        row_above(a, b, k),
    ensures
        !row_above(b, a, k),
    decreases a.len() - k,
{
    if k < a.len() {
        if crate::number::above(a[k], b[k]) {
            assert(crate::number::below(b[k], a[k]));
            if crate::number::above(b[k], a[k]) {
                assert(crate::number::above(a[k], a[k]));
            }
        } else {
            assert(!crate::number::above(b[k], a[k])) by {
                if crate::number::above(b[k], a[k]) {
                    assert(crate::number::below(a[k], b[k]));
                }
            }
            lemma_above_is_one_way(a, b, k + 1);
        }
    }
}

proof fn lemma_insert_ascends<V: Number>(
    rows: Seq<Seq<V>>,
    v: Seq<V>,
    p: int,
    i: int,
    j: int,
    width: nat,
)
    requires
        crate::number::ordered::<V>(),
        crate::number::mirrored::<V>(),
        rows_ascend(rows),
        rows_of_width(rows, width),
        v.len() == width,
        0 <= p <= rows.len(),
        forall|k: int| 0 <= k < p ==> !row_above(#[trigger] rows[k], v, 0),
        forall|k: int| p <= k < rows.len() ==> row_above(#[trigger] rows[k], v, 0),
        !row_above(v, v, 0),
        0 <= i <= j <= rows.len(),
    ensures
        !row_above(rows.insert(p, v)[i], rows.insert(p, v)[j], 0),
{
    let now = rows.insert(p, v);
    if i == p && j == p {
    } else if j == p {
        assert(now[i] == rows[i]);
    } else if i == p {
        assert(now[j] == rows[j - 1]);
        lemma_above_is_one_way(rows[j - 1], v, 0);
    } else {
        let a = if i < p {
            i
        } else {
            i - 1
        };
        let b = if j < p {
            j
        } else {
            j - 1
        };
        assert(now[i] == rows[a] && now[j] == rows[b]);
    }
}

proof fn lemma_push_multiset<A>(s: Seq<A>, v: A)
    ensures
        s.push(v).to_multiset() == s.to_multiset().insert(v),
{
    broadcast use vstd::seq_lib::group_to_multiset_ensures;

}

proof fn lemma_insert_multiset<A>(s: Seq<A>, v: A, p: int)
    requires
        0 <= p <= s.len(),
    ensures
        s.insert(p, v).to_multiset() == s.push(v).to_multiset(),
{
    broadcast use vstd::seq_lib::group_to_multiset_ensures;

    vstd::seq_lib::lemma_multiset_commutative(s.take(p), seq![v] + s.skip(p));
    assert(s.insert(p, v) =~= s.take(p) + (seq![v] + s.skip(p)));
    vstd::seq_lib::lemma_multiset_commutative(s.take(p), s.skip(p));
    vstd::seq_lib::lemma_multiset_commutative(seq![v], s.skip(p));
    assert(s =~= s.take(p) + s.skip(p));
    assert(s.push(v) =~= s + seq![v]);
    vstd::seq_lib::lemma_multiset_commutative(s, seq![v]);
    assert(s.insert(p, v).to_multiset() =~= s.push(v).to_multiset());
}

/// Computes [`distinct_rows`].
fn drop_repeated_rows<V: Number>(rows: &[Vec<V>], Ghost(width): Ghost<nat>) -> (r: Vec<Vec<V>>)
    requires
        crate::number::arithmetic::<V>(),
        rows_of_width(rows_in(rows@), width),
    ensures
        rows_in(r@) == distinct_rows(rows_in(rows@)),
        rows_of_width(rows_in(r@), width),
{
    let ghost all = rows_in(rows@);
    let mut out: Vec<Vec<V>> = Vec::new();
    let mut i: usize = 0;
    proof {
        assert(all.take(0) =~= Seq::empty());
        assert(rows_in(out@) =~= Seq::empty());
    }
    while i < rows.len()
        invariant
            crate::number::arithmetic::<V>(),
            all == rows_in(rows@),
            rows_of_width(all, width),
            i <= rows.len(),
            rows_in(out@) == distinct_rows(all.take(i as int)),
            rows_of_width(rows_in(out@), width),
        decreases rows.len() - i,
    {
        proof {
            assert(all.take(i + 1).drop_last() =~= all.take(i as int));
            assert(all[i as int] == rows@[i as int]@);
        }
        let ghost had = out@;
        let again: bool = if out.len() > 0 {
            proof {
                assert(rows_in(out@)[out@.len() - 1] == out@[out@.len() - 1]@);
            }
            is_same_row(rows[i].as_slice(), out[out.len() - 1].as_slice())
        } else {
            false
        };
        if !again {
            out.push(copy_list(rows[i].as_slice()));
            assert(rows_in(out@) =~= rows_in(had).push(all[i as int]));
        }
        i = i + 1;
    }
    assert(all.take(i as int) =~= all);
    out
}

/// The values of a row, by the names of the parameters.
pub fn name_row<V: Number>(space: &ParameterSpace<V>, row: &[V]) -> (r: TextMap<V>)
    requires
        space.names_differ(),
        row@.len() == space.params@.len(),
    ensures
        r@ == crate::text_map::entries_of(space.names(), row@),
{
    let ghost names = space.names();
    let mut map: TextMap<V> = TextMap::new();
    let mut i: usize = 0;
    proof {
        assert(names.take(0) =~= Seq::empty());
        assert(map@ =~= crate::text_map::entries_of(names.take(0), row@.take(0)));
    }
    while i < row.len()
        invariant
            names == space.names(),
            names.no_duplicates(),
            row@.len() == space.params@.len(),
            i <= row.len(),
            map@ == crate::text_map::entries_of(names.take(i as int), row@.take(i as int)),
        decreases row.len() - i,
    {
        map.insert(space.params[i].name.as_str(), row[i]);
        proof {
            lemma_one_more_entry(names, row@, i as int);
        }
        i = i + 1;
    }
    proof {
        assert(names.take(i as int) =~= names);
        assert(row@.take(i as int) =~= row@);
    }
    map
}

proof fn lemma_one_more_entry<V>(names: Seq<Seq<char>>, row: Seq<V>, i: int)
    requires
        names.no_duplicates(),
        names.len() == row.len(),
        0 <= i < names.len(),
    ensures
        crate::text_map::entries_of(names.take(i + 1), row.take(i + 1))
            == crate::text_map::entries_of(names.take(i), row.take(i)).insert(names[i], row[i]),
{
    let more = names.take(i + 1);
    let less = names.take(i);
    let a = crate::text_map::entries_of(more, row.take(i + 1));
    let b = crate::text_map::entries_of(less, row.take(i)).insert(names[i], row[i]);
    assert forall|n: Seq<char>| a.contains_key(n) == b.contains_key(n) by {
        if more.contains(n) {
            let k = choose|k: int| 0 <= k < more.len() && more[k] == n;
            if k < i {
                assert(less[k] == n);
            }
        }
        if less.contains(n) {
            let k = choose|k: int| 0 <= k < less.len() && less[k] == n;
            assert(more[k] == n);
        }
        if n == names[i] {
            assert(more[i] == n);
        }
    }
    assert forall|n: Seq<char>| a.contains_key(n) implies a[n] == b[n] by {
        let k = more.index_of(n);
        assert(more.contains(n));
        assert(0 <= k < more.len() && more[k] == n);
        if n == names[i] {
            if k < i {
                assert(names[k] == names[i]);
            }
            assert(k == i);
        } else {
            assert(k != i);
            assert(less[k] == n);
            let j = less.index_of(n);
            assert(less.contains(n));
            assert(names[j] == names[k]);
        }
    }
    assert(a =~= b);
}

/// `lists` are the values at which the parameters are tried.
pub open spec fn tries_all<V: Number, F: Functions<V>>(
    f: &F,
    space: ParameterSpace<V>,
    spread: V,
    points: usize,
    lists: Seq<Seq<V>>,
) -> bool {
    &&& lists.len() == space.params@.len()
    &&& forall|p: int|
        0 <= p < lists.len() ==> crate::tuner::grid::tries(
            f,
            space.params@[p],
            spread,
            points,
            #[trigger] lists[p],
        )
}

/// The values at which every parameter is tried are numbers, and there are
/// some.
pub open spec fn tries_are_numbers<V: Number, F: Functions<V>>(
    f: &F,
    space: ParameterSpace<V>,
    spread: V,
    points: usize,
) -> bool {
    forall|p: int, values: Seq<V>|
        0 <= p < space.params@.len() && #[trigger] crate::tuner::grid::tries(
            f,
            space.params@[p],
            spread,
            points,
            values,
        ) ==> values.len() > 0 && all_present(values)
}

/// `candidates` are the combinations of some values, in order and without
/// repetitions.
pub open spec fn combines<V: Number>(
    space: ParameterSpace<V>,
    lists: Seq<Seq<V>>,
    candidates: Seq<TextMap<V>>,
) -> bool {
    exists|sorted: Seq<Seq<V>>| #[trigger]
        sorts_rows(product(lists), sorted) && candidates.map_values(|c: TextMap<V>| c@)
            == distinct_rows(sorted).map_values(
            |row: Seq<V>| crate::text_map::entries_of(space.names(), row),
        )
}

/// Every combination of a few values of each parameter, in order and without
/// repetitions.
pub fn generate_cartesian_grid<V: Number, F: Functions<V>>(
    space: &ParameterSpace<V>,
    spread: V,
    points_per_dim: usize,
    f: &F,
) -> (r: Vec<TextMap<V>>)
    requires
        crate::number::arithmetic::<V>(),
        crate::number::ordered::<V>(),
        crate::number::ranked::<V>(),
        crate::number::mirrored::<V>(),
        crate::functions::computes(f),
        crate::tuner::grid::counts_are_numbers::<V, F>(f),
        space.wf(),
        space.names_differ(),
        points_per_dim > 0,
        tries_are_numbers(f, *space, spread, points_per_dim),
    ensures
        exists|lists: Seq<Seq<V>>| #[trigger]
            tries_all(f, *space, spread, points_per_dim, lists) && combines(*space, lists, r@),
{
    let mut lists: Vec<Vec<V>> = Vec::new();
    let mut p: usize = 0;
    while p < space.params.len()
        invariant
            crate::number::arithmetic::<V>(),
            crate::number::ordered::<V>(),
            crate::number::ranked::<V>(),
            crate::functions::computes(f),
            crate::tuner::grid::counts_are_numbers::<V, F>(f),
            space.wf(),
            points_per_dim > 0,
            p <= space.params.len(),
            lists@.len() == p,
            forall|k: int|
                0 <= k < p ==> crate::tuner::grid::tries(
                    f,
                    space.params@[k],
                    spread,
                    points_per_dim,
                    (#[trigger] lists@[k])@,
                ),
        decreases space.params.len() - p,
    {
        assert(space.params@[p as int].bounds.wf());
        lists.push(generate_param_values(&space.params[p], spread, points_per_dim, f));
        p = p + 1;
    }
    let ghost values = rows_in(lists@);
    let ghost width = values.len();
    let rows = all_rows(lists.as_slice());
    proof {
        let all = rows_in(rows@);
        assert forall|i: int| 0 <= i < all.len() implies (#[trigger] all[i]).len() == width by {
            law_product_rows(values, i);
        }
        assert forall|i: int| 0 <= i < rows@.len() implies all_present((#[trigger] rows@[i])@) by {
            law_product_rows(values, i);
            assert(all[i] == rows@[i]@);
            assert forall|k: int| 0 <= k < all[i].len() implies !crate::number::missing(
                #[trigger] all[i][k],
            ) by {
                assert(values[k].contains(all[i][k]));
                assert(values[k] == lists@[k]@);
                let j = choose|j: int| 0 <= j < values[k].len() && values[k][j] == all[i][k];
                assert(all_present(values[k]));
            }
        }
    }
    let sorted = sort_rows(rows.as_slice(), Ghost(width));
    let kept = drop_repeated_rows(sorted.as_slice(), Ghost(width));
    let mut candidates: Vec<TextMap<V>> = Vec::new();
    let mut i: usize = 0;
    while i < kept.len()
        invariant
            space.names_differ(),
            width == space.params@.len(),
            rows_of_width(rows_in(kept@), width),
            i <= kept.len(),
            candidates@.len() == i,
            forall|k: int|
                0 <= k < i ==> (#[trigger] candidates@[k])@ == crate::text_map::entries_of(
                    space.names(),
                    kept@[k]@,
                ),
        decreases kept.len() - i,
    {
        assert(rows_in(kept@)[i as int] == kept@[i as int]@);
        candidates.push(name_row(space, kept[i].as_slice()));
        i = i + 1;
    }
    proof {
        assert forall|q: int| 0 <= q < values.len() implies crate::tuner::grid::tries(
            f,
            space.params@[q],
            spread,
            points_per_dim,
            #[trigger] values[q],
        ) by {
            assert(values[q] == lists@[q]@);
        }
        assert(tries_all(f, *space, spread, points_per_dim, values));
        let order = rows_in(sorted@);
        assert(sorts_rows(product(values), order));
        let plain = candidates@.map_values(|c: TextMap<V>| c@);
        let named = distinct_rows(order).map_values(
            |row: Seq<V>| crate::text_map::entries_of(space.names(), row),
        );
        assert(plain =~= named) by {
            assert forall|k: int| 0 <= k < plain.len() implies plain[k] == named[k] by {
                assert(rows_in(kept@)[k] == kept@[k]@);
                assert(candidates@[k]@ == crate::text_map::entries_of(
                    space.names(),
                    kept@[k]@,
                ));
            }
        }
    }
    candidates
}

proof fn lemma_differing_is_above<V: Number>(a: Seq<V>, b: Seq<V>, k: int)
    requires
        crate::number::comparable::<V>(),
        crate::number::mirrored::<V>(),
        a.len() == b.len(),
        all_present(a),
        all_present(b),
        0 <= k,
        !row_above(b, a, k),
        exists|m: int| k <= m < a.len() && !crate::number::same(#[trigger] a[m], b[m]),
    ensures
        row_above(a, b, k),
    decreases a.len() - k,
{
    let m = choose|m: int| k <= m < a.len() && !crate::number::same(#[trigger] a[m], b[m]);
    assert(!crate::number::missing(a[k]));
    assert(!crate::number::missing(b[k]));
    assert(!crate::number::above(b[k], a[k]));
    if !crate::number::above(a[k], b[k]) {
        assert(!crate::number::below(b[k], a[k]));
        assert(!crate::number::below(a[k], b[k]));
        assert(crate::number::same(a[k], b[k]));
        lemma_differing_is_above(a, b, k + 1);
    }
}

proof fn lemma_same_is_not_above<V: Number>(a: Seq<V>, b: Seq<V>, k: int)
    requires
        crate::number::comparable::<V>(),
        a.len() == b.len(),
        all_present(a),
        all_present(b),
        0 <= k,
        same_row(a, b),
    ensures
        !row_above(b, a, k),
    decreases a.len() - k,
{
    if k < a.len() {
        assert(!crate::number::missing(a[k]));
        assert(!crate::number::missing(b[k]));
        assert(crate::number::same(a[k], b[k]));
        lemma_same_is_not_above(a, b, k + 1);
    }
}

proof fn lemma_kept_rows<V: Number>(rows: Seq<Seq<V>>, i: int)
    requires
        0 <= i < distinct_rows(rows).len(),
    ensures
        rows.contains(distinct_rows(rows)[i]),
    decreases rows.len(),
{
    if rows.len() > 0 {
        let fewer = rows.drop_last();
        let kept = distinct_rows(fewer);
        if i < kept.len() {
            lemma_kept_rows(fewer, i);
            let k = choose|k: int| 0 <= k < fewer.len() && fewer[k] == kept[i];
            assert(rows[k] == kept[i]);
        } else {
            assert(rows[rows.len() - 1] == distinct_rows(rows)[i]);
        }
    }
}

proof fn lemma_kept_rows_ascend<V: Number>(rows: Seq<Seq<V>>, width: nat)
    requires
        crate::number::ordered::<V>(),
        crate::number::ranked::<V>(),
        crate::number::mirrored::<V>(),
        crate::number::comparable::<V>(),
        rows_ascend(rows),
        rows_of_width(rows, width),
        forall|k: int| 0 <= k < rows.len() ==> all_present(#[trigger] rows[k]),
    ensures
        forall|a: int, b: int|
            0 <= a < b < distinct_rows(rows).len() ==> row_above(
                #[trigger] distinct_rows(rows)[b],
                #[trigger] distinct_rows(rows)[a],
                0,
            ),
    decreases rows.len(),
{
    if rows.len() > 0 {
        let fewer = rows.drop_last();
        let kept = distinct_rows(fewer);
        let v = rows.last();
        let last = rows.len() - 1;
        assert forall|a: int, b: int| 0 <= a <= b < fewer.len() implies !row_above(
            #[trigger] fewer[a],
            #[trigger] fewer[b],
            0,
        ) by {
            assert(!row_above(rows[a], rows[b], 0));
        }
        assert forall|k: int| 0 <= k < fewer.len() implies (#[trigger] fewer[k]).len() == width by {
            assert(rows[k].len() == width);
        }
        assert forall|k: int| 0 <= k < fewer.len() implies all_present(#[trigger] fewer[k]) by {
            assert(all_present(rows[k]));
        }
        lemma_kept_rows_ascend(fewer, width);
        assert(all_present(rows[last]) && rows[last].len() == width);
        if kept.len() > 0 && !same_row(v, kept.last()) {
            let end = kept.len() - 1;
            assert forall|a: int| 0 <= a < kept.len() implies row_above(v, #[trigger] kept[a], 0) by {
                lemma_kept_rows(fewer, a);
                let k = choose|k: int| 0 <= k < fewer.len() && fewer[k] == kept[a];
                assert(rows[k] == kept[a]);
                assert(!row_above(rows[k], rows[last], 0));
                assert(all_present(rows[k]) && rows[k].len() == width);
                lemma_kept_rows(fewer, end);
                let m = choose|m: int| 0 <= m < fewer.len() && fewer[m] == kept[end];
                assert(rows[m] == kept[end]);
                assert(all_present(rows[m]) && rows[m].len() == width);
                assert(!row_above(rows[m], rows[last], 0));
                let d = choose|d: int|
                    0 <= d < v.len() && !crate::number::same(#[trigger] v[d], kept[end][d]);
                assert(!crate::number::same(v[d], kept[end][d]));
                lemma_differing_is_above(v, kept[end], 0);
                if a < end {
                    assert(row_above(kept[end], kept[a], 0));
                    if !row_above(v, kept[a], 0) {
                        lemma_above_is_one_way(kept[end], kept[a], 0);
                        lemma_not_above_chains(v, kept[a], kept[end], 0);
                    }
                }
            }
        }
    }
}

/// Sorted rows of numbers without their repetitions ascend strictly: no two of
/// them are equal.
pub proof fn law_no_row_repeats<V: Number>(rows: Seq<Seq<V>>, width: nat, i: int, j: int)
    requires
        crate::number::ordered::<V>(),
        crate::number::ranked::<V>(),
        crate::number::mirrored::<V>(),
        crate::number::comparable::<V>(),
        rows_ascend(rows),
        rows_of_width(rows, width),
        forall|k: int| 0 <= k < rows.len() ==> all_present(#[trigger] rows[k]),
        0 <= i < j < distinct_rows(rows).len(),
    ensures
        row_above(distinct_rows(rows)[j], distinct_rows(rows)[i], 0),
        !same_row(distinct_rows(rows)[i], distinct_rows(rows)[j]),
{
    lemma_kept_rows_ascend(rows, width);
    let a = distinct_rows(rows)[i];
    let b = distinct_rows(rows)[j];
    lemma_kept_rows(rows, i);
    lemma_kept_rows(rows, j);
    let k = choose|k: int| 0 <= k < rows.len() && rows[k] == a;
    let m = choose|m: int| 0 <= m < rows.len() && rows[m] == b;
    assert(all_present(rows[k]) && all_present(rows[m]));
    assert(rows[k].len() == width && rows[m].len() == width);
    if same_row(a, b) {
        lemma_same_is_not_above(a, b, 0);
    }
}

/// No two candidates of a grid have equal values for all parameters.
pub proof fn law_candidates_differ<V: Number>(
    space: ParameterSpace<V>,
    lists: Seq<Seq<V>>,
    candidates: Seq<TextMap<V>>,
    i: int,
    j: int,
)
    requires
        crate::number::ordered::<V>(),
        crate::number::ranked::<V>(),
        crate::number::mirrored::<V>(),
        crate::number::comparable::<V>(),
        space.names_differ(),
        lists.len() == space.params@.len(),
        forall|p: int| 0 <= p < lists.len() ==> all_present(#[trigger] lists[p]),
        combines(space, lists, candidates),
        0 <= i < j < candidates.len(),
    ensures
        exists|p: int|
            0 <= p < space.params@.len() && !crate::number::same(
                candidates[i]@[(#[trigger] space.params@[p]).name@],
                candidates[j]@[space.params@[p].name@],
            ),
{
    broadcast use vstd::seq_lib::group_to_multiset_ensures;

    let sorted = choose|sorted: Seq<Seq<V>>| #[trigger]
        sorts_rows(product(lists), sorted) && candidates.map_values(|c: TextMap<V>| c@)
            == distinct_rows(sorted).map_values(
            |row: Seq<V>| crate::text_map::entries_of(space.names(), row),
        );
    let kept = distinct_rows(sorted);
    let plain = candidates.map_values(|c: TextMap<V>| c@);
    let named = kept.map_values(|row: Seq<V>| crate::text_map::entries_of(space.names(), row));
    let width = lists.len();
    assert(plain == named);
    assert(plain.len() == candidates.len() && named.len() == kept.len());
    assert forall|k: int| 0 <= k < sorted.len() implies (#[trigger] sorted[k]).len() == width
        && all_present(sorted[k]) by {
        assert(sorted.contains(sorted[k]));
        assert(sorted.to_multiset().count(sorted[k]) > 0);
        assert(product(lists).contains(sorted[k]));
        let m = choose|m: int| 0 <= m < product(lists).len() && product(lists)[m] == sorted[k];
        law_product_rows(lists, m);
        assert forall|p: int| 0 <= p < sorted[k].len() implies !crate::number::missing(
            #[trigger] sorted[k][p],
        ) by {
            assert(lists[p].contains(sorted[k][p]));
            let q = choose|q: int| 0 <= q < lists[p].len() && lists[p][q] == sorted[k][p];
            assert(all_present(lists[p]));
        }
    }
    law_no_row_repeats(sorted, width, i, j);
    lemma_kept_rows(sorted, i);
    lemma_kept_rows(sorted, j);
    assert(kept[i].len() == width && kept[j].len() == width);
    let p = choose|p: int|
        0 <= p < kept[i].len() && !crate::number::same(#[trigger] kept[i][p], kept[j][p]);
    assert(!crate::number::same(kept[i][p], kept[j][p]));
    assert(plain[i] == named[i] && plain[j] == named[j]);
    let names = space.names();
    let name = names[p];
    assert(names.contains(name));
    let q = names.index_of(name);
    assert(names[q] == name);
    if q < p {
        assert(space.params@[q].name@ != space.params@[p].name@);
    } else if p < q {
        assert(space.params@[p].name@ != space.params@[q].name@);
    }
    assert(name == space.params@[p].name@);
}

} // verus!
