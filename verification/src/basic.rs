//! The plainest form of the network: a `u32` buffer and a boolean
//! direction flag, with no validation.  The caller supplies a length
//! that is zero or a power of two; the network assumes it and never
//! re-checks.

use vstd::prelude::*;
use crate::is_power_of_two;
use crate::ordered::do_sort;
use crate::relation::directed_le;
use crate::theory::sorted_between;

verus! {

broadcast use vstd::laws_cmp::group_laws_cmp;

/// Sorts the buffer upward when `asc` holds, downward otherwise.  The
/// result holds the same values, ordered in the chosen direction.
pub fn sort(array: &mut Vec<u32>, asc: bool)
    requires
        old(array)@.len() == 0 || is_power_of_two(old(array)@.len() as int),
    ensures
        final(array)@.len() == old(array)@.len(),
        final(array)@.to_multiset() == old(array)@.to_multiset(),
        sorted_between(final(array)@, 0, old(array)@.len() as int, directed_le::<u32>(asc)),
{
    let n = array.len();
    do_sort(array, 0, n, asc);
    proof {
        assert(array@.subrange(0, n as int) =~= array@);
        assert(old(array)@.subrange(0, n as int) =~= old(array)@);
    }
}

} // verus!
