//! Counts that stop at the largest machine word.

use vstd::prelude::*;

verus! {

/// The number, or the largest machine word where it exceeds that.
pub open spec fn capped(n: nat) -> nat {
    if n > usize::MAX {
        usize::MAX as nat
    } else {
        n
    }
}

/// The sum, or the largest machine word where it exceeds that.
pub fn capped_sum(a: usize, b: usize) -> (sum: usize)
    ensures
        sum == capped((a + b) as nat),
{
    if a > usize::MAX - b {
        usize::MAX
    } else {
        a + b
    }
}

} // verus!
