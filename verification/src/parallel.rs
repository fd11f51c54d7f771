//! The parallel variant of the network.
//!
//! The recursion is the same as the sequential builder's and merge's,
//! with one addition: while a window is larger than the threshold, its
//! two recursive half-calls are kept as separate units of work.  The
//! two units are independent — each owns a disjoint half of the window,
//! and its contract says it touches nothing else — so a host may
//! dispatch them concurrently and join before the merge step; this
//! build, which carries no thread runtime, runs them in order.  At or
//! below the threshold, and for the compare-and-swap sweep of each
//! merge level, work is sequential.

use vstd::prelude::*;
use crate::SortError;
use crate::SortOrder;
use crate::is_power_of_two;
use crate::lemma_power_of_two_halves;
use crate::power_of_two;
use crate::ordered::compare_and_swap;
use crate::ordered::do_sort;
use crate::ordered::sub_sort;
use crate::perm::lemma_below_permuted;
use crate::perm::lemma_window_permuted_grow;
use crate::perm::window_permuted;
use crate::relation::directed_le;
use crate::relation::lemma_natural_total_preorder;
use crate::relation::natural_le;
use crate::theory::bitonic;
use crate::theory::lemma_bitonic_flipped;
use crate::theory::lemma_bitonic_window;
use crate::theory::lemma_half_clean_cross;
use crate::theory::lemma_half_clean_facts;
use crate::theory::lemma_half_clean_left;
use crate::theory::lemma_half_clean_right;
use crate::theory::lemma_rise_fall_bitonic;
use crate::theory::lemma_sorted_join;
use crate::theory::lemma_sorted_window;
use crate::theory::sorted_between;

verus! {

/// Sorts the buffer in the requested direction with the parallel
/// recursion shape.  `threshold` is the smallest window size that is
/// still split into independent units; windows at or below it are
/// handled sequentially.  The contract is the sequential `sort`'s: the
/// threshold moves work between units but never changes the result.
pub fn parallel_sort<T: Ord>(array: &mut Vec<T>, order: &SortOrder, threshold: usize) -> (r:
    Result<(), SortError>)
    requires
        vstd::laws_cmp::obeys_cmp::<T>(),
    ensures
        r is Ok <==> (old(array)@.len() == 0 || is_power_of_two(old(array)@.len() as int)),
        r is Err ==> final(array)@ == old(array)@ && r == Err::<(), SortError>(
            SortError::NotPowerOfTwoLength(old(array)@.len() as usize),
        ),
        final(array)@.len() == old(array)@.len(),
        final(array)@.to_multiset() == old(array)@.to_multiset(),
        r is Ok ==> sorted_between(
            final(array)@,
            0,
            old(array)@.len() as int,
            directed_le::<T>(*order is Ascending),
        ),
{
    let n = array.len();
    if n == 0 {
        return Ok(());
    }
    if !power_of_two(n) {
        return Err(SortError::NotPowerOfTwoLength(n));
    }
    let forward = matches!(order, SortOrder::Ascending);
    par_do_sort(array, 0, n, forward, threshold);
    proof {
        assert(array@.subrange(0, n as int) =~= array@);
        assert(old(array)@.subrange(0, n as int) =~= old(array)@);
    }
    Ok(())
}

/// The builder with the parallel shape: above the threshold the two
/// half-calls are the independent units; the merge that follows them
/// must wait for both, and recurses with the same shape.
fn par_do_sort<T: Ord>(array: &mut Vec<T>, lo: usize, hi: usize, forward: bool, threshold: usize)
    requires
        vstd::laws_cmp::obeys_cmp::<T>(),
        lo <= hi,
        hi <= old(array)@.len(),
        hi == lo || is_power_of_two((hi - lo) as int),
    ensures
        final(array)@.len() == old(array)@.len(),
        forall|k: int|
            0 <= k < old(array)@.len() && !(lo <= k < hi) ==> final(array)@[k] == old(array)@[k],
        window_permuted(old(array)@, final(array)@, lo as int, hi as int),
        sorted_between(final(array)@, lo as int, hi as int, directed_le::<T>(forward)),
    decreases hi - lo,
{
    if hi - lo <= threshold || hi - lo <= 1 {
        do_sort(array, lo, hi, forward);
        return ;
    }
    proof {
        lemma_natural_total_preorder::<T>();
        lemma_power_of_two_halves((hi - lo) as int);
    }
    let mid = lo + (hi - lo) / 2;
    let ghost s0 = array@;
    par_do_sort(array, lo, mid, true, threshold);
    let ghost s1 = array@;
    par_do_sort(array, mid, hi, false, threshold);
    let ghost s2 = array@;
    proof {
        let nle = natural_le::<T>();
        lemma_sorted_window(s1, s2, lo as int, mid as int, nle);
        lemma_rise_fall_bitonic(s2, lo as int, mid as int, hi as int, nle);
        if !forward {
            lemma_bitonic_flipped(s2, lo as int, hi as int, nle);
        }
        lemma_window_permuted_grow(s0, s1, lo as int, hi as int, lo as int, mid as int);
        lemma_window_permuted_grow(s1, s2, lo as int, hi as int, mid as int, hi as int);
    }
    par_sub_sort(array, lo, hi, forward, threshold);
}

/// The merge with the parallel shape: the sweep of the whole window is
/// sequential, then the two half-merges are the independent units.
fn par_sub_sort<T: Ord>(array: &mut Vec<T>, lo: usize, hi: usize, forward: bool, threshold: usize)
    requires
        vstd::laws_cmp::obeys_cmp::<T>(),
        lo <= hi,
        hi <= old(array)@.len(),
        hi == lo || is_power_of_two((hi - lo) as int),
        bitonic(old(array)@, lo as int, hi as int, directed_le::<T>(forward)),
    ensures
        final(array)@.len() == old(array)@.len(),
        forall|k: int|
            0 <= k < old(array)@.len() && !(lo <= k < hi) ==> final(array)@[k] == old(array)@[k],
        window_permuted(old(array)@, final(array)@, lo as int, hi as int),
        sorted_between(final(array)@, lo as int, hi as int, directed_le::<T>(forward)),
    decreases hi - lo,
{
    if hi - lo <= threshold || hi - lo <= 1 {
        sub_sort(array, lo, hi, forward);
        return ;
    }
    proof {
        lemma_natural_total_preorder::<T>();
        lemma_power_of_two_halves((hi - lo) as int);
    }
    let ghost dle = directed_le::<T>(forward);
    let mid = lo + (hi - lo) / 2;
    let ghost s0 = array@;
    compare_and_swap(array, lo, hi, forward);
    let ghost s1 = array@;
    proof {
        lemma_half_clean_facts(s0, s1, lo as int, hi as int, mid as int, dle);
        lemma_half_clean_cross(s0, s1, lo as int, hi as int, mid as int, dle);
        lemma_half_clean_left(s0, s1, lo as int, hi as int, mid as int, dle);
        lemma_half_clean_right(s0, s1, lo as int, hi as int, mid as int, dle);
    }
    par_sub_sort(array, lo, mid, forward, threshold);
    let ghost s2 = array@;
    proof {
        lemma_bitonic_window(s1, s2, mid as int, hi as int, dle);
    }
    par_sub_sort(array, mid, hi, forward, threshold);
    let ghost s3 = array@;
    proof {
        lemma_sorted_window(s2, s3, lo as int, mid as int, dle);
        assert(s3.subrange(lo as int, mid as int) =~= s2.subrange(lo as int, mid as int));
        assert(s2.subrange(mid as int, hi as int) =~= s1.subrange(mid as int, hi as int));
        lemma_below_permuted(s1, s3, lo as int, mid as int, hi as int, dle);
        lemma_sorted_join(s3, lo as int, mid as int, hi as int, dle);
        lemma_window_permuted_grow(s1, s2, lo as int, hi as int, lo as int, mid as int);
        lemma_window_permuted_grow(s2, s3, lo as int, hi as int, mid as int, hi as int);
    }
}

} // verus!
