//! Tables of numbers, stored row by row.

use crate::error::{Result, TreeBoostError};
use crate::text::{decimal_string, join5};
use vstd::prelude::*;

verus! {

/// The number of whole rows of a table.
pub open spec fn row_count(len: nat, num_features: nat) -> nat {
    len / num_features
}

/// The entry of a row and a column.
pub open spec fn cell<V>(data: Seq<V>, num_features: nat, row: int, col: int) -> V {
    data[row * num_features + col]
}

/// The entries of a column, from the top.
pub open spec fn column_of<V>(data: Seq<V>, num_features: nat, col: int) -> Seq<V> {
    Seq::new(
        row_count(data.len(), num_features),
        |row: int| cell(data, num_features, row, col),
    )
}

/// The place of an entry lies within the table.
pub proof fn lemma_cell_in_range(len: nat, num_features: nat, row: int, col: int)
    requires
        num_features > 0,
        0 <= row < row_count(len, num_features),
        0 <= col < num_features,
    ensures
        0 <= row * num_features + col < len,
        0 <= row * num_features,
        row * num_features + num_features <= len,
        (row * num_features + col) % (num_features as int) == col,
        (row * num_features + col) / (num_features as int) == row,
{
    let k = num_features as int;
    let rows = row_count(len, num_features) as int;
    assert(rows * k <= len) by (nonlinear_arith)
        requires
            rows == len as int / k,
            k > 0,
            len >= 0,
    ;
    assert(row * k + k <= rows * k && 0 <= row * k) by (nonlinear_arith)
        requires
            0 <= row < rows,
            k > 0,
    ;
    vstd::arithmetic::div_mod::lemma_fundamental_div_mod_converse(row * k + col, k, row, col);
}

/// The complaint about a number of entries that does not make whole rows.
pub open spec fn uneven_text(len: nat, num_features: nat) -> Seq<char> {
    "Data length "@ + crate::text::decimal(len) + " not divisible by num_features "@
        + crate::text::decimal(num_features) + ""@
}

/// The complaint about a number of features other than that fitted.
pub open spec fn mismatch_text(fitted: nat, given: nat) -> Seq<char> {
    "num_features mismatch: fit with "@ + crate::text::decimal(fitted) + ", transform with "@
        + crate::text::decimal(given) + ""@
}

/// What is wrong with the layout of a table to be fitted, if anything.
pub open spec fn layout_error(len: nat, num_features: nat) -> Option<Seq<char>> {
    if num_features == 0 {
        Some("num_features must be > 0"@)
    } else if len % num_features != 0 {
        Some(uneven_text(len, num_features))
    } else if row_count(len, num_features) == 0 {
        Some("No rows to fit"@)
    } else {
        None
    }
}

/// Checks the layout of a table to be fitted, and returns the number of rows.
pub fn check_layout(len: usize, num_features: usize) -> (r: Result<usize>)
    ensures
        match r {
            Ok(rows) => {
                &&& layout_error(len as nat, num_features as nat) is None
                &&& rows == row_count(len as nat, num_features as nat)
                &&& rows > 0
                &&& num_features > 0
            },
            Err(e) => {
                &&& layout_error(len as nat, num_features as nat) is Some
                &&& e.is_data(layout_error(len as nat, num_features as nat)->Some_0)
            },
        },
{
    if num_features == 0 {
        return Err(TreeBoostError::Data("num_features must be > 0".to_owned()));
    }
    if len % num_features != 0 {
        return Err(uneven_error(len, num_features));
    }
    let rows: usize = len / num_features;
    if rows == 0 {
        return Err(TreeBoostError::Data("No rows to fit".to_owned()));
    }
    Ok(rows)
}

/// The error that complains about a number of entries that does not make whole
/// rows.
pub fn uneven_error(len: usize, num_features: usize) -> (r: TreeBoostError)
    ensures
        r.is_data(uneven_text(len as nat, num_features as nat)),
{
    TreeBoostError::Data(
        join5(
            "Data length ",
            decimal_string(len as u64).as_str(),
            " not divisible by num_features ",
            decimal_string(num_features as u64).as_str(),
            "",
        ),
    )
}

/// The error that complains about a number of features other than that fitted.
pub fn mismatch_error(fitted: usize, given: usize) -> (r: TreeBoostError)
    ensures
        r.is_data(mismatch_text(fitted as nat, given as nat)),
{
    TreeBoostError::Data(
        join5(
            "num_features mismatch: fit with ",
            decimal_string(fitted as u64).as_str(),
            ", transform with ",
            decimal_string(given as u64).as_str(),
            "",
        ),
    )
}

/// What is wrong with a table to be transformed by a scaler, if anything.
pub open spec fn transform_error(
    name: Seq<char>,
    fitted: bool,
    width: nat,
    len: nat,
    num_features: nat,
) -> Option<Seq<char>> {
    if !fitted {
        Some(name + " not fitted. Call fit() first."@)
    } else if num_features != width {
        Some(mismatch_text(width, num_features))
    } else if len % num_features != 0 {
        Some(uneven_text(len, num_features))
    } else {
        None
    }
}

/// A scaler refuses a table: it has learnt nothing, or the table does not fit.
pub open spec fn refuses(fitted: bool, width: nat, len: nat, num_features: nat) -> bool {
    !fitted || num_features != width || (num_features > 0 && len % num_features != 0)
}

/// Checks a table to be transformed by a scaler.
pub fn check_transform(
    name: &str,
    fitted: bool,
    width: usize,
    len: usize,
    num_features: usize,
) -> (r: Result<()>)
    requires
        fitted && num_features == width ==> num_features > 0,
    ensures
        match r {
            Ok(_) => transform_error(
                name@,
                fitted,
                width as nat,
                len as nat,
                num_features as nat,
            ) is None,
            Err(e) => {
                let text = transform_error(
                    name@,
                    fitted,
                    width as nat,
                    len as nat,
                    num_features as nat,
                );
                text is Some && e.is_data(text->Some_0)
            },
        },
{
    if !fitted {
        return Err(
            TreeBoostError::Data(crate::text::join2(name, " not fitted. Call fit() first.")),
        );
    }
    if num_features != width {
        return Err(mismatch_error(width, num_features));
    }
    if len % num_features != 0 {
        return Err(uneven_error(len, num_features));
    }
    Ok(())
}

/// The entries of a column.
pub fn read_column<V: Copy>(data: &[V], num_features: usize, col: usize) -> (r: Vec<V>)
    requires
        col < num_features,
    ensures
        r@ == column_of(data@, num_features as nat, col as int),
{
    let len: usize = data.len();
    let rows: usize = len / num_features;
    let mut list: Vec<V> = Vec::new();
    let mut row: usize = 0;
    while row < rows
        invariant
            col < num_features,
            len == data@.len(),
            rows == row_count(data@.len(), num_features as nat),
            row <= rows,
            list@ == column_of(data@, num_features as nat, col as int).take(row as int),
        decreases rows - row,
    {
        proof {
            lemma_cell_in_range(data@.len(), num_features as nat, row as int, col as int);
        }
        list.push(data[row * num_features + col]);
        row = row + 1;
        assert(list@ =~= column_of(data@, num_features as nat, col as int).take(row as int));
    }
    assert(list@ =~= column_of(data@, num_features as nat, col as int));
    list
}

/// `after` is `before` with every entry of a whole row replaced as `f` says for
/// the entry and its column.
pub open spec fn maps_cells<V>(
    before: Seq<V>,
    after: Seq<V>,
    num_features: nat,
    f: spec_fn(V, int) -> V,
) -> bool {
    &&& after.len() == before.len()
    &&& forall|i: int|
        0 <= i < before.len() ==> #[trigger] after[i] == (if i < row_count(
            before.len(),
            num_features,
        ) * num_features {
            f(before[i], i % (num_features as int))
        } else {
            before[i]
        })
}

/// Replaces every entry of a whole row as `change` says for the entry and its
/// column.
pub fn map_cells<V: Copy, C: Fn(V, usize) -> V>(
    data: &mut [V],
    num_features: usize,
    change: &C,
    Ghost(f): Ghost<spec_fn(V, int) -> V>,
)
    requires
        num_features > 0,
        forall|v: V, col: usize| col < num_features ==> #[trigger] call_requires(*change, (v, col)),
        forall|v: V, col: usize, r: V| #[trigger]
            call_ensures(*change, (v, col), r) && col < num_features ==> r == f(v, col as int),
    ensures
        maps_cells(old(data)@, final(data)@, num_features as nat, f),
{
    let ghost before = data@;
    let ghost k = num_features as nat;
    let rows: usize = data.len() / num_features;
    let mut row: usize = 0;
    while row < rows
        invariant
            num_features > 0,
            k == num_features,
            data.len() == before.len(),
            rows == row_count(before.len(), k),
            row <= rows,
            forall|v: V, col: usize|
                col < num_features ==> #[trigger] call_requires(*change, (v, col)),
            forall|v: V, col: usize, r: V| #[trigger]
                call_ensures(*change, (v, col), r) && col < num_features ==> r == f(v, col as int),
            forall|i: int|
                0 <= i < before.len() ==> #[trigger] data[i] == (if i < row * k {
                    f(before[i], i % (k as int))
                } else {
                    before[i]
                }),
        decreases rows - row,
    {
        proof {
            assert((row + 1) * k == row * k + k) by (nonlinear_arith);
        }
        let mut col: usize = 0;
        while col < num_features
            invariant
                num_features > 0,
                k == num_features,
                data.len() == before.len(),
                rows == row_count(before.len(), k),
                row < rows,
                col <= num_features,
                forall|v: V, c: usize|
                    c < num_features ==> #[trigger] call_requires(*change, (v, c)),
                forall|v: V, c: usize, r: V| #[trigger]
                    call_ensures(*change, (v, c), r) && c < num_features ==> r == f(v, c as int),
                forall|i: int|
                    0 <= i < before.len() ==> #[trigger] data[i] == (if i < row * k + col {
                        f(before[i], i % (k as int))
                    } else {
                        before[i]
                    }),
            decreases num_features - col,
        {
            proof {
                lemma_cell_in_range(before.len(), k, row as int, col as int);
            }
            let idx: usize = row * num_features + col;
            let old_value: V = data[idx];
            data[idx] = change(old_value, col);
            col = col + 1;
        }
        row = row + 1;
    }
}

/// A changed table has the same layout: the entry of a row and a column comes of
/// the entry at the same place, by the rule of its column.
pub proof fn law_cells_stay_in_place<V>(
    before: Seq<V>,
    after: Seq<V>,
    num_features: nat,
    f: spec_fn(V, int) -> V,
    row: int,
    col: int,
)
    requires
        maps_cells(before, after, num_features, f),
        num_features > 0,
        0 <= row < before.len() / num_features,
        0 <= col < num_features,
    ensures
        after.len() == before.len(),
        after[row * num_features + col] == f(before[row * num_features + col], col),
        column_of(after, num_features, col)[row] == f(before[row * num_features + col], col),
{
    lemma_cell_in_range(before.len(), num_features, row, col);
    let k = num_features as int;
    let rows = row_count(before.len(), num_features) as int;
    assert(row * k + col < rows * k) by (nonlinear_arith)
        requires
            0 <= row < rows,
            0 <= col < k,
    ;
}

/// A column holds every so-many-th entry of a table: as many as there are rows.
pub proof fn law_column_entries<V>(data: Seq<V>, num_features: nat, row: int, col: int)
    requires
        num_features > 0,
        0 <= row < data.len() / num_features,
        0 <= col < num_features,
    ensures
        column_of(data, num_features, col).len() == data.len() / num_features,
        column_of(data, num_features, col)[row] == data[row * num_features + col],
{
}

} // verus!
