//! Buffer utilities around the sorters: seeded test data and order
//! checks.

use vstd::prelude::*;
use core::cmp::Ordering;
use rand::Rng;
use rand::SeedableRng;
use rand::distributions::Standard;
use rand_pcg::Pcg64Mcg;
use crate::relation::flipped;
use crate::relation::lemma_natural_total_preorder;
use crate::relation::natural_le;
use crate::theory::lemma_adjacent_sorted;
use crate::theory::lemma_sorted_trivial;
use crate::theory::sorted_between;
use vstd::std_specs::cmp::OrdSpec;

verus! {

/// Relies on `rand_pcg::Pcg64Mcg::from_seed` and rand's `Standard`
/// distribution: fills a buffer of the requested size with words drawn
/// from the fixed-seed generator.  Nothing is assumed about the values.
#[verifier::external_body]
pub fn new_u32_vec(n: usize) -> (r: Vec<u32>)
    ensures
        r@.len() == n,
{
    let rng = Pcg64Mcg::from_seed([0; 16]);
    rng.sample_iter(Standard).take(n).collect()
}

/// Whether the buffer rises throughout: `true` exactly when every
/// earlier element is at most every later one in the natural order.
pub fn is_sorted_ascending<T: Ord>(x: &Vec<T>) -> (r: bool)
    requires
        vstd::laws_cmp::obeys_cmp::<T>(),
    ensures
        r == sorted_between(x@, 0, x@.len() as int, natural_le::<T>()),
{
    proof {
        lemma_natural_total_preorder::<T>();
    }
    let ghost nle = natural_le::<T>();
    let n = x.len();
    if n == 0 {
        proof {
            lemma_sorted_trivial(x@, 0, 0, nle);
        }
        return true;
    }
    let mut i: usize = 0;
    while i + 1 < n
        invariant
            vstd::laws_cmp::obeys_cmp::<T>(),
            T::obeys_cmp_spec(),
            nle == natural_le::<T>(),
            i < n,
            n == x@.len(),
            forall|k: int| 0 <= k < i ==> #[trigger] nle(x@[k], x@[k + 1]),
        decreases n - i,
    {
        if matches!(x[i].cmp(&x[i + 1]), Ordering::Greater) {
            proof {
                assert(!nle(x@[i as int], x@[i as int + 1]));
            }
            return false;
        }
        i += 1;
    }
    proof {
        lemma_adjacent_sorted(x@, 0, n as int, nle);
    }
    true
}

/// Whether the buffer falls throughout: `true` exactly when every
/// earlier element is at least every later one in the natural order.
pub fn is_sorted_descending<T: Ord>(x: &Vec<T>) -> (r: bool)
    requires
        vstd::laws_cmp::obeys_cmp::<T>(),
    ensures
        r == sorted_between(x@, 0, x@.len() as int, flipped(natural_le::<T>())),
{
    proof {
        lemma_natural_total_preorder::<T>();
        crate::relation::lemma_natural_mirror::<T>();
    }
    let ghost dle = flipped(natural_le::<T>());
    let n = x.len();
    if n == 0 {
        proof {
            lemma_sorted_trivial(x@, 0, 0, dle);
        }
        return true;
    }
    let mut i: usize = 0;
    while i + 1 < n
        invariant
            vstd::laws_cmp::obeys_cmp::<T>(),
            T::obeys_cmp_spec(),
            forall|a: T, b: T|
                #![trigger a.cmp_spec(&b)]
                a.cmp_spec(&b) == Ordering::Less <==> b.cmp_spec(&a) == Ordering::Greater,
            dle == flipped(natural_le::<T>()),
            i < n,
            n == x@.len(),
            forall|k: int| 0 <= k < i ==> #[trigger] dle(x@[k], x@[k + 1]),
        decreases n - i,
    {
        if matches!(x[i].cmp(&x[i + 1]), Ordering::Less) {
            proof {
                assert(!dle(x@[i as int], x@[i as int + 1]));
            }
            return false;
        }
        i += 1;
    }
    proof {
        lemma_adjacent_sorted(x@, 0, n as int, dle);
    }
    true
}

} // verus!
