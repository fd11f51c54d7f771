//! Permutation bookkeeping for in-place windows.
//!
//! Every mutation the network performs is a swap of two positions inside
//! the window a call owns, so the window's contents, counted with
//! multiplicity, never change.  These lemmas carry that fact through
//! swaps, through nested windows, and across the ordering facts that
//! survive a permutation.

use vstd::prelude::*;
use vstd::seq_lib::group_to_multiset_ensures;
use vstd::seq_lib::lemma_multiset_commutative;

verus! {

/// The window [lo, hi) of `s2` holds the same values as that of `s1`,
/// counted with multiplicity.
pub open spec fn window_permuted<T>(s1: Seq<T>, s2: Seq<T>, lo: int, hi: int) -> bool {
    s2.subrange(lo, hi).to_multiset() == s1.subrange(lo, hi).to_multiset()
}

/// Swapping two positions inside the window permutes it and touches
/// nothing else.
pub proof fn lemma_swap_window<T>(s1: Seq<T>, s2: Seq<T>, lo: int, hi: int, i: int, j: int)
    requires
        0 <= lo <= i < hi <= s1.len(),
        lo <= j < hi,
        s2 == s1.update(i, s1[j]).update(j, s1[i]),
    ensures
        s2.len() == s1.len(),
        window_permuted(s1, s2, lo, hi),
        forall|k: int| 0 <= k < s1.len() && k != i && k != j ==> s2[k] == s1[k],
{
    broadcast use group_to_multiset_ensures;
    broadcast use vstd::multiset::group_multiset_axioms;

    let w1 = s1.subrange(lo, hi);
    let w2 = s2.subrange(lo, hi);
    if i == j {
        assert(w2 =~= w1);
    } else {
        let mid = w1.update(i - lo, w1[j - lo]);
        assert(w2 =~= mid.update(j - lo, w1[i - lo]));
        assert(w1.contains(w1[i - lo]));
        assert(w1.contains(w1[j - lo]));
        assert(mid.to_multiset() == w1.to_multiset().insert(w1[j - lo]).remove(w1[i - lo]));
        assert(mid[j - lo] == w1[j - lo]);
        assert(w2.to_multiset() == mid.to_multiset().insert(w1[i - lo]).remove(w1[j - lo]));
        assert(w2.to_multiset() =~= w1.to_multiset());
    }
}

/// A permutation of a sub-window that leaves the rest of the window in
/// place permutes the window.
pub proof fn lemma_window_permuted_grow<T>(
    s1: Seq<T>,
    s2: Seq<T>,
    lo: int,
    hi: int,
    a: int,
    b: int,
)
    requires
        0 <= lo <= a <= b <= hi <= s1.len(),
        s2.len() == s1.len(),
        window_permuted(s1, s2, a, b),
        forall|k: int| lo <= k < hi && !(a <= k < b) ==> s2[k] == s1[k],
    ensures
        window_permuted(s1, s2, lo, hi),
{
    assert(s1.subrange(lo, hi) =~= (s1.subrange(lo, a) + s1.subrange(a, b)) + s1.subrange(b, hi));
    assert(s2.subrange(lo, hi) =~= (s2.subrange(lo, a) + s2.subrange(a, b)) + s2.subrange(b, hi));
    assert(s2.subrange(lo, a) =~= s1.subrange(lo, a));
    assert(s2.subrange(b, hi) =~= s1.subrange(b, hi));
    lemma_multiset_commutative(s1.subrange(lo, a), s1.subrange(a, b));
    lemma_multiset_commutative(s1.subrange(lo, a) + s1.subrange(a, b), s1.subrange(b, hi));
    lemma_multiset_commutative(s2.subrange(lo, a), s2.subrange(a, b));
    lemma_multiset_commutative(s2.subrange(lo, a) + s2.subrange(a, b), s2.subrange(b, hi));
}

/// If everything left of `m` sits below everything right of it, the
/// same holds after each side is permuted within itself: each new value
/// came from the same side.
pub proof fn lemma_below_permuted<T>(
    s1: Seq<T>,
    s2: Seq<T>,
    lo: int,
    m: int,
    hi: int,
    le: spec_fn(T, T) -> bool,
)
    requires
        0 <= lo <= m <= hi <= s1.len(),
        s2.len() == s1.len(),
        forall|i: int, j: int| lo <= i < m <= j < hi ==> #[trigger] le(s1[i], s1[j]),
        window_permuted(s1, s2, lo, m),
        window_permuted(s1, s2, m, hi),
    ensures
        forall|i: int, j: int| lo <= i < m <= j < hi ==> #[trigger] le(s2[i], s2[j]),
{
    broadcast use group_to_multiset_ensures;

    let wl1 = s1.subrange(lo, m);
    let wl2 = s2.subrange(lo, m);
    let wr1 = s1.subrange(m, hi);
    let wr2 = s2.subrange(m, hi);
    assert forall|i: int, j: int| lo <= i < m <= j < hi implies #[trigger] le(s2[i], s2[j]) by {
        assert(wl2[i - lo] == s2[i]);
        assert(wl2.contains(s2[i]));
        assert(wl1.to_multiset().count(s2[i]) > 0);
        assert(wl1.contains(s2[i]));
        let p = choose|p: int| 0 <= p < wl1.len() && wl1[p] == s2[i];
        assert(s1[p + lo] == s2[i]);
        assert(wr2[j - m] == s2[j]);
        assert(wr2.contains(s2[j]));
        assert(wr1.to_multiset().count(s2[j]) > 0);
        assert(wr1.contains(s2[j]));
        let q = choose|q: int| 0 <= q < wr1.len() && wr1[q] == s2[j];
        assert(s1[q + m] == s2[j]);
        assert(le(s1[p + lo], s1[q + m]));
    }
}

} // verus!
