//! Laws relating the entry points to one another.
//!
//! All three rest on one fact: under an antisymmetric total preorder,
//! a sorted arrangement of given contents is unique.  Whatever path the
//! network takes — a direction, a comparator implementing the same
//! order, a parallel schedule, a repeated run — two outputs that hold
//! the same values and are both sorted are the same sequence.

use vstd::prelude::*;
use core::cmp::Ordering;
use vstd::seq_lib::group_to_multiset_ensures;
use vstd::std_specs::cmp::OrdSpec;
use crate::comparator::comparator_le;
use crate::relation::antisymmetric;
use crate::relation::directed_le;
use crate::relation::lemma_natural_antisymmetric;
use crate::relation::lemma_natural_total_preorder;
use crate::relation::natural_le;
use crate::relation::total_preorder;
use crate::theory::sorted_between;

verus! {

/// Under an antisymmetric total preorder, a sorted arrangement of
/// given contents is unique: two sorted sequences with equal multisets
/// are equal.
pub proof fn lemma_sorted_unique<T>(s1: Seq<T>, s2: Seq<T>, le: spec_fn(T, T) -> bool)
    requires
        total_preorder(le),
        antisymmetric(le),
        s1.to_multiset() == s2.to_multiset(),
        sorted_between(s1, 0, s1.len() as int, le),
        sorted_between(s2, 0, s2.len() as int, le),
    ensures
        s1 == s2,
    decreases s1.len(),
{
    broadcast use group_to_multiset_ensures;

    if s1.len() == 0 {
        assert(s1.to_multiset().len() == s1.len());
        assert(s2.to_multiset().len() == s2.len());
        assert(s2.len() == 0);
        assert(s1 =~= s2);
    } else {
        assert(s1.to_multiset().len() == s1.len());
        assert(s2.to_multiset().len() == s2.len());
        assert(s2.len() == s1.len());
        // each head is a minimum of the shared contents, so they agree
        assert(s2.contains(s2[0]));
        assert(s1.to_multiset().count(s2[0]) > 0);
        assert(s1.contains(s2[0]));
        let k = choose|k: int| 0 <= k < s1.len() && s1[k] == s2[0];
        assert(le(s1[0], s1[k]));
        assert(s1.contains(s1[0]));
        assert(s2.to_multiset().count(s1[0]) > 0);
        assert(s2.contains(s1[0]));
        let j = choose|j: int| 0 <= j < s2.len() && s2[j] == s1[0];
        assert(le(s2[0], s2[j]));
        assert(s1[0] == s2[0]);
        // the tails hold the same remaining contents, sorted
        let t1 = s1.remove(0);
        let t2 = s2.remove(0);
        assert(t1.to_multiset() == s1.to_multiset().remove(s1[0]));
        assert(t2.to_multiset() == s2.to_multiset().remove(s2[0]));
        assert forall|i: int, j2: int| 0 <= i <= j2 < t1.len() implies #[trigger] le(
            t1[i],
            t1[j2],
        ) by {
            assert(t1[i] == s1[i + 1] && t1[j2] == s1[j2 + 1]);
            assert(le(s1[i + 1], s1[j2 + 1]));
        }
        assert forall|i: int, j2: int| 0 <= i <= j2 < t2.len() implies #[trigger] le(
            t2[i],
            t2[j2],
        ) by {
            assert(t2[i] == s2[i + 1] && t2[j2] == s2[j2 + 1]);
            assert(le(s2[i + 1], s2[j2 + 1]));
        }
        lemma_sorted_unique(t1, t2, le);
        assert forall|i: int| 0 <= i < s1.len() implies s1[i] == s2[i] by {
            if i > 0 {
                assert(t1[i - 1] == s1[i] && t2[i - 1] == s2[i]);
            }
        }
        assert(s1 =~= s2);
    }
}

/// Comparator equivalence: sorting upward by direction and sorting by
/// a comparator that implements the natural order give identical
/// output for the same input.  Both outputs hold the input's contents
/// and are sorted by the natural order, which pins them down.
pub proof fn lemma_comparator_equivalence<T: Ord>(
    input: Seq<T>,
    by_direction: Seq<T>,
    by_comparator: Seq<T>,
    c: spec_fn(T, T) -> Ordering,
)
    requires
        vstd::laws_cmp::obeys_cmp::<T>(),
        vstd::laws_eq::obeys_concrete_eq::<T>(),
        forall|a: T, b: T| #[trigger] c(a, b) == a.cmp_spec(&b),
        by_direction.to_multiset() == input.to_multiset(),
        sorted_between(by_direction, 0, by_direction.len() as int, directed_le::<T>(true)),
        by_comparator.to_multiset() == input.to_multiset(),
        sorted_between(by_comparator, 0, by_comparator.len() as int, comparator_le(c)),
    ensures
        by_direction == by_comparator,
{
    lemma_natural_total_preorder::<T>();
    lemma_natural_antisymmetric::<T>();
    assert(comparator_le(c) =~= natural_le::<T>());
    assert(directed_le::<T>(true) == natural_le::<T>());
    lemma_sorted_unique(by_direction, by_comparator, natural_le::<T>());
}

/// Sequential/parallel equivalence: for the same input and direction,
/// any two runs that each return the input's contents sorted in that
/// direction — the sequential network and the parallel one at any
/// threshold meet exactly this contract — give identical output.
pub proof fn lemma_parallel_equivalence<T: Ord>(
    input: Seq<T>,
    sequential: Seq<T>,
    parallel: Seq<T>,
    forward: bool,
)
    requires
        vstd::laws_cmp::obeys_cmp::<T>(),
        vstd::laws_eq::obeys_concrete_eq::<T>(),
        sequential.to_multiset() == input.to_multiset(),
        sorted_between(sequential, 0, sequential.len() as int, directed_le::<T>(forward)),
        parallel.to_multiset() == input.to_multiset(),
        sorted_between(parallel, 0, parallel.len() as int, directed_le::<T>(forward)),
    ensures
        sequential == parallel,
{
    lemma_natural_total_preorder::<T>();
    lemma_natural_antisymmetric::<T>();
    lemma_sorted_unique(sequential, parallel, directed_le::<T>(forward));
}

/// Idempotence: sorting a sequence already sorted in the requested
/// direction returns it unchanged — the input is itself the one sorted
/// arrangement of its contents.
pub proof fn lemma_sort_idempotent<T: Ord>(input: Seq<T>, output: Seq<T>, forward: bool)
    requires
        vstd::laws_cmp::obeys_cmp::<T>(),
        vstd::laws_eq::obeys_concrete_eq::<T>(),
        sorted_between(input, 0, input.len() as int, directed_le::<T>(forward)),
        output.to_multiset() == input.to_multiset(),
        sorted_between(output, 0, output.len() as int, directed_le::<T>(forward)),
    ensures
        output == input,
{
    lemma_natural_total_preorder::<T>();
    lemma_natural_antisymmetric::<T>();
    lemma_sorted_unique(output, input, directed_le::<T>(forward));
}

} // verus!
