//! The decisions of one run: which order the user picked, which lines of
//! the input hold a problem, and how large its tableau is.
use vstd::prelude::*;
use crate::syntax::str_eq;
use crate::tableau::Sorting;

verus! {

/// The order picked by the menu answer `choice`: "1", "2" or "3".
pub open spec fn sorting_of_choice(choice: Seq<char>) -> Option<Sorting> {
    if choice == "1"@ {
        Some(Sorting::Normal)
    } else if choice == "2"@ {
        Some(Sorting::Reversed)
    } else if choice == "3"@ {
        Some(Sorting::Random)
    } else {
        None
    }
}

/// Reads the (trimmed) menu answer; `None` asks again.
pub fn select_sorting(choice: &str) -> (r: Option<Sorting>)
    ensures
        r == sorting_of_choice(choice@),
{
    if str_eq(choice, "1") {
        Some(Sorting::Normal)
    } else if str_eq(choice, "2") {
        Some(Sorting::Reversed)
    } else if str_eq(choice, "3") {
        Some(Sorting::Random)
    } else {
        None
    }
}

/// A trimmed line holds no problem: it is empty or a comment.
pub open spec fn skipped_line(line: Seq<u8>) -> bool {
    line.len() == 0 || line[0] == 35
}

/// Whether the trimmed line `line` is skipped: empty, or starting with `#`.
pub fn is_skipped_line(line: &[u8]) -> (r: bool)
    ensures
        r == skipped_line(line@),
{
    line.len() == 0 || line[0] == 35
}

/// The number of constraint rows of a line with `ands` conjunctions: one
/// more than the conjunctions, less the one that introduces the parameters
/// when there is more than one assignment of them.
pub open spec fn rows_of(ands: nat, num_combinations: i32) -> nat {
    if num_combinations != 1 {
        ands
    } else {
        ands + 1
    }
}

/// The number of constraint rows (see `rows_of`).
pub fn problem_rows(ands: usize, num_combinations: i32) -> (rows: usize)
    requires
        ands < usize::MAX,
    ensures
        rows == rows_of(ands as nat, num_combinations),
{
    let mut rows = ands + 1;
    if num_combinations != 1 {
        rows = rows - 1;
    }
    rows
}

} // verus!
