//! The natural ("alphanumeric") order of file names, from the
//! `alphanumeric_sort` crate.

use vstd::prelude::*;
use std::cmp::Ordering;

verus! {

/// What `alphanumeric_sort::compare_str` answers for two strings, written
/// -1 for `Less`, 0 for `Equal` and 1 for `Greater`.
pub uninterp spec fn alphanumeric_order(a: Seq<char>, b: Seq<char>) -> i8;

/// Compares two names with `alphanumeric_sort::compare_str`: digit runs are
/// compared by their numeric value, other characters by their scalar value.
/// Its contract claims only that the answer is the named result of the two
/// arguments, and that the name takes one of the three values.
#[verifier::external_body]
pub(crate) fn compare_names(a: &str, b: &str) -> (r: i8)
    ensures
        r == alphanumeric_order(a@, b@),
        -1 <= r <= 1,
{
    match alphanumeric_sort::compare_str(a, b) {
        Ordering::Less => -1,
        Ordering::Equal => 0,
        Ordering::Greater => 1,
    }
}

} // verus!
