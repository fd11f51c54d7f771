//! Direction-based sorting of a buffer of any ordered type.
//!
//! `sort` validates the length, then `do_sort` builds a bitonic window
//! by sorting the left half upward and the right half downward — this
//! fixed inner choice, independent of the requested direction, is what
//! makes the two halves' concatenation bitonic — and `sub_sort`
//! resolves a bitonic window with one compare-and-swap sweep followed
//! by the same resolution of both halves.

use vstd::prelude::*;
use vstd::std_specs::cmp::OrdSpec;
use core::cmp::Ordering;
use crate::SortError;
use crate::SortOrder;
use crate::is_power_of_two;
use crate::lemma_power_of_two_halves;
use crate::power_of_two;
use crate::swap_in_place;
use crate::perm::lemma_below_permuted;
use crate::perm::lemma_swap_window;
use crate::perm::lemma_window_permuted_grow;
use crate::perm::window_permuted;
use crate::relation::directed_le;
use crate::relation::lemma_natural_mirror;
use crate::relation::lemma_natural_total_preorder;
use crate::relation::natural_le;
use crate::theory::bitonic;
use crate::theory::half_clean;
use crate::theory::lemma_bitonic_flipped;
use crate::theory::lemma_bitonic_window;
use crate::theory::lemma_half_clean_cross;
use crate::theory::lemma_half_clean_facts;
use crate::theory::lemma_half_clean_left;
use crate::theory::lemma_half_clean_right;
use crate::theory::lemma_rise_fall_bitonic;
use crate::theory::lemma_sorted_join;
use crate::theory::lemma_sorted_trivial;
use crate::theory::lemma_sorted_window;
use crate::theory::sorted_between;

verus! {

/// Sorts the buffer in the requested direction.
///
/// Succeeds exactly when the length is zero or a power of two; any
/// other length is rejected with `NotPowerOfTwoLength` before anything
/// moves.  On success the buffer holds the same values, sorted by the
/// natural order of `T` in the requested direction.
pub fn sort<T: Ord>(array: &mut Vec<T>, order: &SortOrder) -> (r: Result<(), SortError>)
    requires
        vstd::laws_cmp::obeys_cmp::<T>(),
    ensures
        r is Ok <==> (old(array)@.len() == 0 || is_power_of_two(old(array)@.len() as int)),
        r is Err ==> final(array)@ == old(array)@ && r == Err::<(), SortError>(
            SortError::NotPowerOfTwoLength(old(array)@.len() as usize),
        ),
        final(array)@.len() == old(array)@.len(),
        final(array)@.to_multiset() == old(array)@.to_multiset(),
        r is Ok ==> sorted_between(
            final(array)@,
            0,
            old(array)@.len() as int,
            directed_le::<T>(*order is Ascending),
        ),
{
    let n = array.len();
    if n == 0 {
        return Ok(());
    }
    if !power_of_two(n) {
        return Err(SortError::NotPowerOfTwoLength(n));
    }
    let forward = matches!(order, SortOrder::Ascending);
    do_sort(array, 0, n, forward);
    proof {
        assert(array@.subrange(0, n as int) =~= array@);
        assert(old(array)@.subrange(0, n as int) =~= old(array)@);
    }
    Ok(())
}

/// Builds a bitonic window out of arbitrary contents, then resolves it:
/// the left half is sorted upward and the right half downward, whatever
/// the requested direction, and the sweep-based merge finishes the job.
pub(crate) fn do_sort<T: Ord>(array: &mut Vec<T>, lo: usize, hi: usize, forward: bool)
    requires
        vstd::laws_cmp::obeys_cmp::<T>(),
        lo <= hi,
        hi <= old(array)@.len(),
        hi == lo || is_power_of_two((hi - lo) as int),
    ensures
        final(array)@.len() == old(array)@.len(),
        forall|k: int|
            0 <= k < old(array)@.len() && !(lo <= k < hi) ==> final(array)@[k] == old(array)@[k],
        window_permuted(old(array)@, final(array)@, lo as int, hi as int),
        sorted_between(final(array)@, lo as int, hi as int, directed_le::<T>(forward)),
    decreases hi - lo,
{
    proof {
        lemma_natural_total_preorder::<T>();
    }
    if hi - lo <= 1 {
        proof {
            lemma_sorted_trivial(array@, lo as int, hi as int, directed_le::<T>(forward));
        }
        return ;
    }
    proof {
        lemma_power_of_two_halves((hi - lo) as int);
    }
    let mid = lo + (hi - lo) / 2;
    let ghost s0 = array@;
    do_sort(array, lo, mid, true);
    let ghost s1 = array@;
    do_sort(array, mid, hi, false);
    let ghost s2 = array@;
    proof {
        let nle = natural_le::<T>();
        lemma_sorted_window(s1, s2, lo as int, mid as int, nle);
        lemma_rise_fall_bitonic(s2, lo as int, mid as int, hi as int, nle);
        if !forward {
            lemma_bitonic_flipped(s2, lo as int, hi as int, nle);
        }
        lemma_window_permuted_grow(s0, s1, lo as int, hi as int, lo as int, mid as int);
        lemma_window_permuted_grow(s1, s2, lo as int, hi as int, mid as int, hi as int);
    }
    sub_sort(array, lo, hi, forward);
}

/// Resolves a bitonic window into sorted order: one compare-and-swap
/// sweep separates the halves and leaves each bitonic, and the same
/// resolution of both halves finishes.
pub(crate) fn sub_sort<T: Ord>(array: &mut Vec<T>, lo: usize, hi: usize, forward: bool)
    requires
        vstd::laws_cmp::obeys_cmp::<T>(),
        lo <= hi,
        hi <= old(array)@.len(),
        hi == lo || is_power_of_two((hi - lo) as int),
        bitonic(old(array)@, lo as int, hi as int, directed_le::<T>(forward)),
    ensures
        final(array)@.len() == old(array)@.len(),
        forall|k: int|
            0 <= k < old(array)@.len() && !(lo <= k < hi) ==> final(array)@[k] == old(array)@[k],
        window_permuted(old(array)@, final(array)@, lo as int, hi as int),
        sorted_between(final(array)@, lo as int, hi as int, directed_le::<T>(forward)),
    decreases hi - lo,
{
    proof {
        lemma_natural_total_preorder::<T>();
    }
    let ghost dle = directed_le::<T>(forward);
    if hi - lo <= 1 {
        proof {
            lemma_sorted_trivial(array@, lo as int, hi as int, dle);
        }
        return ;
    }
    proof {
        lemma_power_of_two_halves((hi - lo) as int);
    }
    let mid = lo + (hi - lo) / 2;
    let ghost s0 = array@;
    compare_and_swap(array, lo, hi, forward);
    let ghost s1 = array@;
    proof {
        lemma_half_clean_facts(s0, s1, lo as int, hi as int, mid as int, dle);
        lemma_half_clean_cross(s0, s1, lo as int, hi as int, mid as int, dle);
        lemma_half_clean_left(s0, s1, lo as int, hi as int, mid as int, dle);
        lemma_half_clean_right(s0, s1, lo as int, hi as int, mid as int, dle);
    }
    sub_sort(array, lo, mid, forward);
    let ghost s2 = array@;
    proof {
        lemma_bitonic_window(s1, s2, mid as int, hi as int, dle);
    }
    sub_sort(array, mid, hi, forward);
    let ghost s3 = array@;
    proof {
        lemma_sorted_window(s2, s3, lo as int, mid as int, dle);
        assert(s3.subrange(lo as int, mid as int) =~= s2.subrange(lo as int, mid as int));
        assert(s2.subrange(mid as int, hi as int) =~= s1.subrange(mid as int, hi as int));
        lemma_below_permuted(s1, s3, lo as int, mid as int, hi as int, dle);
        lemma_sorted_join(s3, lo as int, mid as int, hi as int, dle);
        lemma_window_permuted_grow(s1, s2, lo as int, hi as int, lo as int, mid as int);
        lemma_window_permuted_grow(s2, s3, lo as int, hi as int, mid as int, hi as int);
    }
}

/// The only mutating and only comparing step: each element of the left
/// half of the window is compared with its partner half a window to the
/// right and the two are exchanged when they violate the direction;
/// equal pairs stay put.
pub(crate) fn compare_and_swap<T: Ord>(array: &mut Vec<T>, lo: usize, hi: usize, forward: bool)
    requires
        vstd::laws_cmp::obeys_cmp::<T>(),
        lo <= hi,
        hi <= old(array)@.len(),
        (hi - lo) % 2 == 0,
    ensures
        final(array)@.len() == old(array)@.len(),
        final(array)@ == half_clean(
            old(array)@,
            lo as int,
            hi as int,
            directed_le::<T>(forward),
        ),
        window_permuted(old(array)@, final(array)@, lo as int, hi as int),
{
    proof {
        lemma_natural_total_preorder::<T>();
        lemma_natural_mirror::<T>();
    }
    let ghost s0 = array@;
    let ghost dle = directed_le::<T>(forward);
    let ghost hc = half_clean(s0, lo as int, hi as int, dle);
    let half = (hi - lo) / 2;
    let mut i: usize = lo;
    while i < lo + half
        invariant
            vstd::laws_cmp::obeys_cmp::<T>(),
            T::obeys_cmp_spec(),
            forall|a: T, b: T|
                #![trigger a.cmp_spec(&b)]
                a.cmp_spec(&b) == Ordering::Less <==> b.cmp_spec(&a) == Ordering::Greater,
            lo <= i <= lo + half,
            lo <= hi <= s0.len(),
            half == (hi - lo) / 2,
            (hi - lo) % 2 == 0,
            array@.len() == s0.len(),
            dle == directed_le::<T>(forward),
            hc == half_clean(s0, lo as int, hi as int, dle),
            forall|k: int| lo <= k < i ==> array@[k] == hc[k],
            forall|k: int| lo + half <= k < i + half ==> array@[k] == hc[k],
            forall|k: int|
                0 <= k < s0.len() && !(lo <= k < i) && !(lo + half <= k < i + half) ==> array@[k]
                    == s0[k],
            window_permuted(s0, array@, lo as int, hi as int),
        decreases lo + half - i,
    {
        proof {
            assert(hi - lo == 2 * half);
            assert(i + half < hi);
            assert(array@[i as int] == s0[i as int]);
            assert(array@[(i + half) as int] == s0[(i + half) as int]);
        }
        let swap_needed = if forward {
            matches!(array[i].cmp(&array[i + half]), Ordering::Greater)
        } else {
            matches!(array[i].cmp(&array[i + half]), Ordering::Less)
        };
        let ghost pre = array@;
        if swap_needed {
            swap_in_place(array, i, i + half);
            proof {
                lemma_swap_window(pre, array@, lo as int, hi as int, i as int, (i + half) as int);
            }
        }
        proof {
            assert(swap_needed == !dle(s0[i as int], s0[(i + half) as int]));
            assert(array@[i as int] == hc[i as int]);
            assert(array@[(i + half) as int] == hc[(i + half) as int]);
        }
        i += 1;
    }
    proof {
        assert(array@ =~= hc);
    }
}

} // verus!
