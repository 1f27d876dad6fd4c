//! Three-way comparison results, as integers in specifications and as
//! `Ordering` in executable code.
use vstd::prelude::*;
use std::cmp::Ordering;

verus! {

/// -1, 0 or 1 as `x` is below, equal to or above `y`.
pub open spec fn cmp_int(x: int, y: int) -> int {
    if x < y {
        -1
    } else if x > y {
        1
    } else {
        0
    }
}

/// The `Ordering` that a three-way result in {-1, 0, 1} stands for.
pub open spec fn ordering_of(c: int) -> Ordering {
    if c < 0 {
        Ordering::Less
    } else if c > 0 {
        Ordering::Greater
    } else {
        Ordering::Equal
    }
}

pub fn compare_u64(x: u64, y: u64) -> (r: Ordering)
    ensures
        r == ordering_of(cmp_int(x as int, y as int)),
{
    if x < y {
        Ordering::Less
    } else if x > y {
        Ordering::Greater
    } else {
        Ordering::Equal
    }
}

} // verus!
