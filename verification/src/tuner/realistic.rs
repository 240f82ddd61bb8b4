//! Targets that come from a table with gaps.

use crate::error::{Result, TreeBoostError};
use crate::text::{decimal_string, join2, join3};
use vstd::prelude::*;

verus! {

/// The complaint about a gap in the targets.
pub open spec fn null_target_text(column: Seq<char>, row: nat) -> Seq<char> {
    "NULL value found in target column '"@ + column + "' at row "@ + crate::text::decimal(row)
}

/// Row `i` is the first without a target.
pub open spec fn first_gap<V>(values: Seq<Option<V>>, i: int) -> bool {
    &&& 0 <= i < values.len()
    &&& values[i] is None
    &&& forall|k: int| 0 <= k < i ==> (#[trigger] values[k]) is Some
}

/// The targets; a gap is an error.
pub fn collect_targets<V: Copy>(values: &[Option<V>], target_column: &str) -> (r: Result<Vec<V>>)
    ensures
        match r {
            Ok(targets) => {
                &&& targets@.len() == values@.len()
                &&& forall|i: int| 0 <= i < values@.len() ==> #[trigger] values@[i] == Some(targets@[i])
            },
            Err(e) => exists|i: int| #[trigger]
                first_gap(values@, i) && e.is_data(null_target_text(target_column@, i as nat)),
        },
{
    let mut targets: Vec<V> = Vec::new();
    let mut i: usize = 0;
    while i < values.len()
        invariant
            i <= values.len(),
            targets@.len() == i,
            forall|k: int| 0 <= k < i ==> #[trigger] values@[k] == Some(targets@[k]),
        decreases values.len() - i,
    {
        match values[i] {
            Some(v) => targets.push(v),
            None => {
                assert(first_gap(values@, i as int));
                let row = decimal_string(i as u64);
                let head = join3(
                    "NULL value found in target column '",
                    target_column,
                    "' at row ",
                );
                return Err(TreeBoostError::Data(join2(head.as_str(), row.as_str())));
            },
        }
        i = i + 1;
    }
    Ok(targets)
}

} // verus!
