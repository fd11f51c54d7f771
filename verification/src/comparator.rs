//! Comparator-based sorting: the form of the network the others share.
//!
//! A caller supplies a binary comparator; the network never inspects
//! elements except through it.  Direction-based sorting is expressed
//! here as the same implementation under one of two canonical
//! comparators: the natural order, or its reverse.  The contracts speak
//! of a spec-level comparator `c` that the executable comparator obeys:
//! every verdict the closure may return equals `c`'s, and `c`'s
//! verdicts form a consistent total ordering.

use vstd::prelude::*;
use core::cmp::Ordering;
use vstd::std_specs::cmp::OrdSpec;
use crate::SortError;
use crate::SortOrder;
use crate::is_power_of_two;
use crate::lemma_power_of_two_halves;
use crate::power_of_two;
use crate::swap_in_place;
use crate::perm::lemma_below_permuted;
use crate::perm::lemma_swap_window;
use crate::perm::lemma_window_permuted_grow;
use crate::perm::window_permuted;
use crate::relation::directed_le;
use crate::relation::flipped;
use crate::relation::lemma_natural_mirror;
use crate::relation::lemma_natural_total_preorder;
use crate::relation::natural_le;
use crate::relation::total_preorder;
use crate::theory::bitonic;
use crate::theory::half_clean;
use crate::theory::lemma_bitonic_flipped;
use crate::theory::lemma_bitonic_window;
use crate::theory::lemma_half_clean_cross;
use crate::theory::lemma_half_clean_facts;
use crate::theory::lemma_half_clean_left;
use crate::theory::lemma_half_clean_right;
use crate::theory::lemma_rise_fall_bitonic;
use crate::theory::lemma_sorted_join;
use crate::theory::lemma_sorted_trivial;
use crate::theory::lemma_sorted_window;
use crate::theory::sorted_between;

verus! {

/// The "at or below" relation a comparator induces: `a` is at or below
/// `b` when the comparator does not place `a` strictly above `b`.
pub open spec fn comparator_le<T>(c: spec_fn(T, T) -> Ordering) -> spec_fn(T, T) -> bool {
    |a: T, b: T| c(a, b) != Ordering::Greater
}

/// The relation the direction flag selects: the comparator's order
/// when `forward`, its mirror otherwise.
pub open spec fn oriented_le<T>(c: spec_fn(T, T) -> Ordering, forward: bool) -> spec_fn(
    T,
    T,
) -> bool {
    if forward {
        comparator_le(c)
    } else {
        flipped(comparator_le(c))
    }
}

/// The comparator's verdicts make one consistent total ordering: the
/// two strict sides mirror each other, and at-or-below verdicts chain.
pub open spec fn well_ordered<T>(c: spec_fn(T, T) -> Ordering) -> bool {
    &&& forall|a: T, b: T|
        #![trigger c(a, b)]
        c(a, b) == Ordering::Less <==> c(b, a) == Ordering::Greater
    &&& forall|a: T, b: T, d: T|
        #![trigger c(a, b), c(b, d)]
        c(a, b) != Ordering::Greater && c(b, d) != Ordering::Greater ==> c(a, d)
            != Ordering::Greater
}

/// The executable comparator `f` can be called on any two elements and
/// never disagrees with `c`: every verdict it may return equals `c`'s.
pub open spec fn obeys_comparator<T, F: Fn(&T, &T) -> Ordering>(
    f: F,
    c: spec_fn(T, T) -> Ordering,
) -> bool {
    &&& forall|a: &T, b: &T| #[trigger] call_requires(f, (a, b))
    &&& forall|a: &T, b: &T, o: Ordering| #[trigger] call_ensures(f, (a, b), o) ==> o == c(*a, *b)
}

/// A consistent comparator induces total preorders both ways.
pub proof fn lemma_well_ordered_total_preorder<T>(c: spec_fn(T, T) -> Ordering)
    requires
        well_ordered(c),
    ensures
        total_preorder(comparator_le(c)),
        total_preorder(flipped(comparator_le(c))),
{
    let le = comparator_le(c);
    assert forall|a: T, b: T| #[trigger] le(a, b) || le(b, a) by {
        if c(a, b) == Ordering::Greater {
            assert(c(b, a) == Ordering::Less);
        }
    }
    assert forall|a: T, b: T, d: T| #![trigger le(a, b), le(b, d)] le(a, b) && le(b, d) implies le(
        a,
        d,
    ) by {
        assert(c(a, b) != Ordering::Greater && c(b, d) != Ordering::Greater);
    }
    assert forall|a: T, b: T| #[trigger] flipped(le)(a, b) || flipped(le)(b, a) by {
        assert(le(b, a) || le(a, b));
    }
    assert forall|a: T, b: T, d: T|
        #![trigger flipped(le)(a, b), flipped(le)(b, d)]
        flipped(le)(a, b) && flipped(le)(b, d) implies flipped(le)(a, d) by {
        assert(le(d, b) && le(b, a));
    }
}

/// Sorts the buffer in the requested direction, by handing the shared
/// comparator-based network one of the two canonical comparators: the
/// natural order for ascending, its reverse for descending.
pub fn sort<T: Ord>(array: &mut Vec<T>, order: &SortOrder) -> (r: Result<(), SortError>)
    requires
        vstd::laws_cmp::obeys_cmp::<T>(),
    ensures
        r is Ok <==> (old(array)@.len() == 0 || is_power_of_two(old(array)@.len() as int)),
        r is Err ==> final(array)@ == old(array)@ && r == Err::<(), SortError>(
            SortError::NotPowerOfTwoLength(old(array)@.len() as usize),
        ),
        final(array)@.len() == old(array)@.len(),
        final(array)@.to_multiset() == old(array)@.to_multiset(),
        r is Ok ==> sorted_between(
            final(array)@,
            0,
            old(array)@.len() as int,
            directed_le::<T>(*order is Ascending),
        ),
{
    proof {
        lemma_natural_total_preorder::<T>();
        lemma_natural_mirror::<T>();
    }
    let n = array.len();
    if n == 0 {
        return Ok(());
    }
    if !power_of_two(n) {
        return Err(SortError::NotPowerOfTwoLength(n));
    }
    match order {
        SortOrder::Ascending => {
            let f = |a: &T, b: &T| -> (o: Ordering)
                ensures
                    T::obeys_cmp_spec() ==> o == a.cmp_spec(b),
                { a.cmp(b) };
            let ghost c = |a: T, b: T| a.cmp_spec(&b);
            proof {
                assert forall|a: &T, b: &T| #[trigger] call_requires(f, (a, b)) by {}
                assert forall|a: &T, b: &T, o: Ordering| #[trigger] call_ensures(f, (a, b), o)
                    implies o == c(*a, *b) by {}
                assert(comparator_le(c) =~= natural_le::<T>());
                assert forall|a: T, b: T| #![trigger c(a, b)] c(a, b) == Ordering::Less <==> c(
                    b,
                    a,
                ) == Ordering::Greater by {}
                assert forall|a: T, b: T, d: T|
                    #![trigger c(a, b), c(b, d)]
                    c(a, b) != Ordering::Greater && c(b, d) != Ordering::Greater implies c(a, d)
                    != Ordering::Greater by {
                    assert(natural_le::<T>()(a, b));
                    assert(natural_le::<T>()(b, d));
                    assert(natural_le::<T>()(a, d));
                }
            }
            do_sort(array, &f, 0, n, true, Ghost(c));
        },
        SortOrder::Descending => {
            let f = |a: &T, b: &T| -> (o: Ordering)
                ensures
                    T::obeys_cmp_spec() ==> o == b.cmp_spec(a),
                { b.cmp(a) };
            let ghost c = |a: T, b: T| b.cmp_spec(&a);
            proof {
                assert forall|a: &T, b: &T| #[trigger] call_requires(f, (a, b)) by {}
                assert forall|a: &T, b: &T, o: Ordering| #[trigger] call_ensures(f, (a, b), o)
                    implies o == c(*a, *b) by {}
                assert(comparator_le(c) =~= flipped(natural_le::<T>()));
                assert forall|a: T, b: T| #![trigger c(a, b)] c(a, b) == Ordering::Less <==> c(
                    b,
                    a,
                ) == Ordering::Greater by {}
                assert forall|a: T, b: T, d: T|
                    #![trigger c(a, b), c(b, d)]
                    c(a, b) != Ordering::Greater && c(b, d) != Ordering::Greater implies c(a, d)
                    != Ordering::Greater by {
                    assert(natural_le::<T>()(b, a));
                    assert(natural_le::<T>()(d, b));
                    assert(natural_le::<T>()(d, a));
                }
            }
            do_sort(array, &f, 0, n, true, Ghost(c));
        },
    }
    proof {
        assert(array@.subrange(0, n as int) =~= array@);
        assert(old(array)@.subrange(0, n as int) =~= old(array)@);
    }
    Ok(())
}

/// Sorts the buffer by a caller-supplied comparator.
///
/// The comparator must implement some consistent total ordering `c`;
/// success, failure and the permutation guarantee do not depend on
/// which, and on success the buffer is sorted by `c`.
pub fn sort_by<T, F: Fn(&T, &T) -> Ordering>(array: &mut Vec<T>, comparator: &F) -> (r: Result<
    (),
    SortError,
>)
    requires
        exists|c: spec_fn(T, T) -> Ordering|
            #[trigger] well_ordered(c) && obeys_comparator(*comparator, c),
    ensures
        r is Ok <==> (old(array)@.len() == 0 || is_power_of_two(old(array)@.len() as int)),
        r is Err ==> final(array)@ == old(array)@ && r == Err::<(), SortError>(
            SortError::NotPowerOfTwoLength(old(array)@.len() as usize),
        ),
        final(array)@.len() == old(array)@.len(),
        final(array)@.to_multiset() == old(array)@.to_multiset(),
        r is Ok ==> exists|c: spec_fn(T, T) -> Ordering|
            #[trigger] well_ordered(c) && obeys_comparator(*comparator, c) && sorted_between(
                final(array)@,
                0,
                old(array)@.len() as int,
                comparator_le(c),
            ),
{
    let ghost c = choose|c: spec_fn(T, T) -> Ordering|
        #[trigger] well_ordered(c) && obeys_comparator(*comparator, c);
    let n = array.len();
    if n == 0 {
        return Ok(());
    }
    if !power_of_two(n) {
        return Err(SortError::NotPowerOfTwoLength(n));
    }
    do_sort(array, comparator, 0, n, true, Ghost(c));
    proof {
        assert(array@.subrange(0, n as int) =~= array@);
        assert(old(array)@.subrange(0, n as int) =~= old(array)@);
    }
    Ok(())
}

/// Builds a bitonic window, then resolves it; identical in shape to the
/// direction-based builder, with every comparison made by the
/// comparator.
fn do_sort<T, F: Fn(&T, &T) -> Ordering>(
    array: &mut Vec<T>,
    comparator: &F,
    lo: usize,
    hi: usize,
    forward: bool,
    Ghost(c): Ghost<spec_fn(T, T) -> Ordering>,
)
    requires
        well_ordered(c),
        obeys_comparator(*comparator, c),
        lo <= hi,
        hi <= old(array)@.len(),
        hi == lo || is_power_of_two((hi - lo) as int),
    ensures
        final(array)@.len() == old(array)@.len(),
        forall|k: int|
            0 <= k < old(array)@.len() && !(lo <= k < hi) ==> final(array)@[k] == old(array)@[k],
        window_permuted(old(array)@, final(array)@, lo as int, hi as int),
        sorted_between(final(array)@, lo as int, hi as int, oriented_le(c, forward)),
    decreases hi - lo,
{
    proof {
        lemma_well_ordered_total_preorder(c);
    }
    if hi - lo <= 1 {
        proof {
            lemma_sorted_trivial(array@, lo as int, hi as int, oriented_le(c, forward));
        }
        return ;
    }
    proof {
        lemma_power_of_two_halves((hi - lo) as int);
    }
    let mid = lo + (hi - lo) / 2;
    let ghost s0 = array@;
    do_sort(array, comparator, lo, mid, true, Ghost(c));
    let ghost s1 = array@;
    do_sort(array, comparator, mid, hi, false, Ghost(c));
    let ghost s2 = array@;
    proof {
        let cle = comparator_le(c);
        lemma_sorted_window(s1, s2, lo as int, mid as int, cle);
        lemma_rise_fall_bitonic(s2, lo as int, mid as int, hi as int, cle);
        if !forward {
            lemma_bitonic_flipped(s2, lo as int, hi as int, cle);
        }
        lemma_window_permuted_grow(s0, s1, lo as int, hi as int, lo as int, mid as int);
        lemma_window_permuted_grow(s1, s2, lo as int, hi as int, mid as int, hi as int);
    }
    sub_sort(array, comparator, lo, hi, forward, Ghost(c));
}

/// Resolves a bitonic window into sorted order, comparator form.
fn sub_sort<T, F: Fn(&T, &T) -> Ordering>(
    array: &mut Vec<T>,
    comparator: &F,
    lo: usize,
    hi: usize,
    forward: bool,
    Ghost(c): Ghost<spec_fn(T, T) -> Ordering>,
)
    requires
        well_ordered(c),
        obeys_comparator(*comparator, c),
        lo <= hi,
        hi <= old(array)@.len(),
        hi == lo || is_power_of_two((hi - lo) as int),
        bitonic(old(array)@, lo as int, hi as int, oriented_le(c, forward)),
    ensures
        final(array)@.len() == old(array)@.len(),
        forall|k: int|
            0 <= k < old(array)@.len() && !(lo <= k < hi) ==> final(array)@[k] == old(array)@[k],
        window_permuted(old(array)@, final(array)@, lo as int, hi as int),
        sorted_between(final(array)@, lo as int, hi as int, oriented_le(c, forward)),
    decreases hi - lo,
{
    proof {
        lemma_well_ordered_total_preorder(c);
    }
    let ghost dle = oriented_le(c, forward);
    if hi - lo <= 1 {
        proof {
            lemma_sorted_trivial(array@, lo as int, hi as int, dle);
        }
        return ;
    }
    proof {
        lemma_power_of_two_halves((hi - lo) as int);
    }
    let mid = lo + (hi - lo) / 2;
    let ghost s0 = array@;
    compare_and_swap(array, comparator, lo, hi, forward, Ghost(c));
    let ghost s1 = array@;
    proof {
        lemma_half_clean_facts(s0, s1, lo as int, hi as int, mid as int, dle);
        lemma_half_clean_cross(s0, s1, lo as int, hi as int, mid as int, dle);
        lemma_half_clean_left(s0, s1, lo as int, hi as int, mid as int, dle);
        lemma_half_clean_right(s0, s1, lo as int, hi as int, mid as int, dle);
    }
    sub_sort(array, comparator, lo, mid, forward, Ghost(c));
    let ghost s2 = array@;
    proof {
        lemma_bitonic_window(s1, s2, mid as int, hi as int, dle);
    }
    sub_sort(array, comparator, mid, hi, forward, Ghost(c));
    let ghost s3 = array@;
    proof {
        lemma_sorted_window(s2, s3, lo as int, mid as int, dle);
        assert(s3.subrange(lo as int, mid as int) =~= s2.subrange(lo as int, mid as int));
        assert(s2.subrange(mid as int, hi as int) =~= s1.subrange(mid as int, hi as int));
        lemma_below_permuted(s1, s3, lo as int, mid as int, hi as int, dle);
        lemma_sorted_join(s3, lo as int, mid as int, hi as int, dle);
        lemma_window_permuted_grow(s1, s2, lo as int, hi as int, lo as int, mid as int);
        lemma_window_permuted_grow(s2, s3, lo as int, hi as int, mid as int, hi as int);
    }
}

/// One compare-and-swap sweep, comparator form: the comparator decides
/// each pair, and equal pairs stay put.
fn compare_and_swap<T, F: Fn(&T, &T) -> Ordering>(
    array: &mut Vec<T>,
    comparator: &F,
    lo: usize,
    hi: usize,
    forward: bool,
    Ghost(c): Ghost<spec_fn(T, T) -> Ordering>,
)
    requires
        well_ordered(c),
        obeys_comparator(*comparator, c),
        lo <= hi,
        hi <= old(array)@.len(),
        (hi - lo) % 2 == 0,
    ensures
        final(array)@.len() == old(array)@.len(),
        final(array)@ == half_clean(old(array)@, lo as int, hi as int, oriented_le(c, forward)),
        window_permuted(old(array)@, final(array)@, lo as int, hi as int),
{
    proof {
        lemma_well_ordered_total_preorder(c);
    }
    let ghost s0 = array@;
    let ghost dle = oriented_le(c, forward);
    let ghost hc = half_clean(s0, lo as int, hi as int, dle);
    let half = (hi - lo) / 2;
    let mut i: usize = lo;
    while i < lo + half
        invariant
            well_ordered(c),
            obeys_comparator(*comparator, c),
            lo <= i <= lo + half,
            lo <= hi <= s0.len(),
            half == (hi - lo) / 2,
            (hi - lo) % 2 == 0,
            array@.len() == s0.len(),
            dle == oriented_le(c, forward),
            hc == half_clean(s0, lo as int, hi as int, dle),
            forall|k: int| lo <= k < i ==> array@[k] == hc[k],
            forall|k: int| lo + half <= k < i + half ==> array@[k] == hc[k],
            forall|k: int|
                0 <= k < s0.len() && !(lo <= k < i) && !(lo + half <= k < i + half) ==> array@[k]
                    == s0[k],
            window_permuted(s0, array@, lo as int, hi as int),
        decreases lo + half - i,
    {
        proof {
            assert(hi - lo == 2 * half);
            assert(i + half < hi);
            assert(array@[i as int] == s0[i as int]);
            assert(array@[(i + half) as int] == s0[(i + half) as int]);
        }
        let verdict = comparator(&array[i], &array[i + half]);
        let swap_needed = if forward {
            matches!(verdict, Ordering::Greater)
        } else {
            matches!(verdict, Ordering::Less)
        };
        let ghost pre = array@;
        if swap_needed {
            swap_in_place(array, i, i + half);
            proof {
                lemma_swap_window(pre, array@, lo as int, hi as int, i as int, (i + half) as int);
            }
        }
        proof {
            assert(verdict == c(s0[i as int], s0[(i + half) as int]));
            assert(swap_needed == !dle(s0[i as int], s0[(i + half) as int]));
            assert(array@[i as int] == hc[i as int]);
            assert(array@[(i + half) as int] == hc[(i + half) as int]);
        }
        i += 1;
    }
    proof {
        assert(array@ =~= hc);
    }
}

} // verus!
