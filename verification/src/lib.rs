//! Bitonic sorting networks over a caller-owned buffer.
//!
//! A bitonic sorting network sorts a sequence whose length is a power of
//! two with a comparison pattern that is fixed in advance: the network
//! first builds a bitonic run (a rise followed by a fall, or a rotation of
//! one) and then resolves it with recursive compare-and-swap sweeps.  The
//! entry points reject any other length and otherwise reorder the buffer
//! in place, in the requested direction or by a caller-supplied comparator.

use vstd::prelude::*;

pub mod basic;
pub mod comparator;
pub mod laws;
pub mod ordered;
pub mod parallel;
pub mod perm;
pub mod relation;
pub mod theory;
pub mod utils;

verus! {

/// The requested monotonic order of a sorted result.
#[derive(Clone, Copy, Debug, PartialEq, Eq, Structural)]
pub enum SortOrder {
    Ascending,
    Descending,
}

/// The one checked failure: the buffer's length is neither zero nor a
/// power of two, so the halving network cannot tile it.  Carries the
/// observed length.
#[derive(Clone, Copy, Debug, PartialEq, Eq, Structural)]
pub enum SortError {
    NotPowerOfTwoLength(usize),
}

/// Whether `n` is a power of two: 1, 2, 4, 8, ...
pub open spec fn is_power_of_two(n: int) -> bool
    decreases n,
{
    if n <= 0 {
        false
    } else if n == 1 {
        true
    } else {
        n % 2 == 0 && is_power_of_two(n / 2)
    }
}

/// Length check performed by the validated entry points.
pub fn power_of_two(n: usize) -> (r: bool)
    ensures
        r == is_power_of_two(n as int),
{
    if n == 0 {
        return false;
    }
    let mut m: usize = n;
    while m % 2 == 0
        invariant
            1 <= m <= n,
            is_power_of_two(n as int) <==> is_power_of_two(m as int),
        decreases m,
    {
        m = m / 2;
    }
    m == 1
}

/// A power of two above one splits into two equal power-of-two halves.
pub proof fn lemma_power_of_two_halves(n: int)
    requires
        is_power_of_two(n),
        n >= 2,
    ensures
        n % 2 == 0,
        is_power_of_two(n / 2),
{
}

/// Relies on `<[T]>::swap`: exchanges the elements at the two indices
/// and moves nothing else.
#[verifier::external_body]
pub(crate) fn swap_in_place<T>(array: &mut Vec<T>, i: usize, j: usize)
    requires
        i < old(array)@.len(),
        j < old(array)@.len(),
    ensures
        final(array)@ == old(array)@.update(i as int, old(array)@[j as int]).update(
            j as int,
            old(array)@[i as int],
        ),
{
    array.swap(i, j);
}

} // verus!
