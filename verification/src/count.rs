//! Counts that stop at the machine's largest.
use vstd::prelude::*;

verus! {

/// A count as a machine word: the largest one where it does not fit.
pub open spec fn capped(n: nat) -> usize {
    if n > usize::MAX {
        usize::MAX
    } else {
        n as usize
    }
}

/// `n` times `k`, at most the largest machine word.
pub fn times(n: usize, k: usize) -> (r: usize)
    ensures
        r == capped((n * k) as nat),
{
    match n.checked_mul(k) {
        Some(v) => v,
        None => usize::MAX,
    }
}

} // verus!
