//! The cap on row counts.

use vstd::prelude::*;

verus! {

/// A row count under a cap: the count itself while it is below the cap, else
/// the cap, marked as the point where counting stopped.
pub open spec fn capped(total: int, cap: int) -> (int, Option<int>) {
    if total >= cap {
        (cap, Some(cap))
    } else {
        (total, None)
    }
}

/// A recorded row count and stop mark as numbers.
pub open spec fn count_view(row_count: usize, stopped_at: Option<usize>) -> (int, Option<int>) {
    (
        row_count as int,
        match stopped_at {
            Some(at) => Some(at as int),
            None => None,
        },
    )
}

/// Applies the row cap to a row count.
pub fn cap_row_count(total: usize, max_rows: usize) -> (r: (usize, Option<usize>))
    ensures
        count_view(r.0, r.1) == capped(total as int, max_rows as int),
{
    if total >= max_rows {
        (max_rows, Some(max_rows))
    } else {
        (total, None)
    }
}

} // verus!
