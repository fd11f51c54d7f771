//! The bitonic-network argument, stated over sequences.
//!
//! The merge step of the network assumes its window is bitonic: a run
//! that rises and then falls, or any cyclic rotation of one.  What the
//! proof tracks is an index-level consequence of that shape which, unlike
//! the rotation form, survives the compare-and-swap sweep exactly: no
//! four positions `a < b < c < d` carry values where the pair `{a, c}`
//! sits strictly above the pair `{b, d}`, or the pair `{b, d}` strictly
//! above `{a, c}`.  Either arrangement would force the window to fall,
//! rise and fall again, which no rotation of a single rise-and-fall can
//! do.  `bitonic` below states that consequence; the lemmas here show it
//! holds of two sorted halves, is kept by the sweep, and yields a sorted
//! window once the recursion bottoms out.

use vstd::prelude::*;
use crate::relation::total_preorder;
use crate::relation::flipped;

verus! {

/// The window [lo, hi) of `s` is sorted by `le`: every earlier element
/// is below every later one.
pub open spec fn sorted_between<T>(s: Seq<T>, lo: int, hi: int, le: spec_fn(T, T) -> bool) -> bool {
    forall|i: int, j: int| lo <= i <= j < hi ==> #[trigger] le(s[i], s[j])
}

/// The values at positions `i` and `j` sit strictly above those at
/// positions `k` and `l`.
pub open spec fn towers_over<T>(
    s: Seq<T>,
    i: int,
    j: int,
    k: int,
    l: int,
    le: spec_fn(T, T) -> bool,
) -> bool {
    &&& !le(s[i], s[k])
    &&& !le(s[i], s[l])
    &&& !le(s[j], s[k])
    &&& !le(s[j], s[l])
}

/// The index-level bitonic shape of the window [lo, hi): no four
/// positions interleave two strictly separated pairs.  Every rotation of
/// a rise-then-fall run has this shape (`lemma_rotation_bitonic`), and
/// one compare-and-swap sweep hands it down to both halves of the
/// window, which the rotation form does not do.
pub open spec fn bitonic<T>(s: Seq<T>, lo: int, hi: int, le: spec_fn(T, T) -> bool) -> bool {
    forall|a: int, b: int, c: int, d: int|
        #![trigger towers_over(s, a, c, b, d, le)]
        #![trigger towers_over(s, b, d, a, c, le)]
        lo <= a && a < b && b < c && c < d && d < hi ==> !towers_over(s, a, c, b, d, le)
            && !towers_over(s, b, d, a, c, le)
}

/// The buffer after one compare-and-swap sweep of the window [lo, hi):
/// each position of the left half keeps the lower of itself and its
/// partner half a window to the right, and the partner keeps the higher.
pub open spec fn half_clean<T>(s: Seq<T>, lo: int, hi: int, le: spec_fn(T, T) -> bool) -> Seq<T> {
    let half = (hi - lo) / 2;
    Seq::new(
        s.len(),
        |k: int|
            if lo <= k && k < lo + half {
                if le(s[k], s[k + half]) {
                    s[k]
                } else {
                    s[k + half]
                }
            } else if lo + half <= k && k < hi {
                if le(s[k - half], s[k]) {
                    s[k]
                } else {
                    s[k - half]
                }
            } else {
                s[k]
            },
    )
}

/// A window of at most one element is sorted by any total preorder.
pub proof fn lemma_sorted_trivial<T>(s: Seq<T>, lo: int, hi: int, le: spec_fn(T, T) -> bool)
    requires
        total_preorder(le),
        hi - lo <= 1,
    ensures
        sorted_between(s, lo, hi, le),
{
    assert forall|i: int, j: int| lo <= i <= j < hi implies #[trigger] le(s[i], s[j]) by {
        assert(le(s[i], s[j]) || le(s[j], s[i]));
    }
}

/// Two sorted halves whose left elements all sit below the right ones
/// make a sorted window.
pub proof fn lemma_sorted_join<T>(s: Seq<T>, lo: int, mid: int, hi: int, le: spec_fn(T, T) -> bool)
    requires
        lo <= mid <= hi,
        sorted_between(s, lo, mid, le),
        sorted_between(s, mid, hi, le),
        forall|i: int, j: int| lo <= i < mid <= j < hi ==> #[trigger] le(s[i], s[j]),
    ensures
        sorted_between(s, lo, hi, le),
{
    assert forall|i: int, j: int| lo <= i <= j < hi implies #[trigger] le(s[i], s[j]) by {
        if j < mid {
            assert(le(s[i], s[j]));
        } else if i >= mid {
            assert(le(s[i], s[j]));
        }
    }
}

/// A window sorted upward and then downward is bitonic, for the upward
/// relation.
pub proof fn lemma_rise_fall_bitonic<T>(
    s: Seq<T>,
    lo: int,
    mid: int,
    hi: int,
    le: spec_fn(T, T) -> bool,
)
    requires
        lo <= mid <= hi,
        sorted_between(s, lo, mid, le),
        sorted_between(s, mid, hi, flipped(le)),
    ensures
        bitonic(s, lo, hi, le),
{
    assert forall|a: int, b: int, c: int, d: int|
        lo <= a && a < b && b < c && c < d && d < hi implies !towers_over(s, a, c, b, d, le)
        && !towers_over(s, b, d, a, c, le) by {
        // Either separation would force a strict fall followed by a
        // strict rise, which neither sorted half allows.
        if towers_over(s, a, c, b, d, le) {
            if b < mid {
                assert(le(s[a], s[b]));
            } else {
                assert(flipped(le)(s[b], s[c]));
            }
        }
        if towers_over(s, b, d, a, c, le) {
            if c < mid {
                assert(le(s[b], s[c]));
            } else {
                assert(flipped(le)(s[c], s[d]));
            }
        }
    }
}

/// A rise-then-fall run has no strict valley: nowhere does it fall
/// strictly and later rise strictly out of the same position.
proof fn lemma_rise_fall_no_valley<T>(s: Seq<T>, mid: int, le: spec_fn(T, T) -> bool)
    requires
        0 <= mid <= s.len(),
        sorted_between(s, 0, mid, le),
        sorted_between(s, mid, s.len() as int, flipped(le)),
    ensures
        forall|p: int, q: int, w: int|
            #![trigger le(s[p], s[q]), le(s[w], s[q])]
            0 <= p < q && q < w < s.len() ==> le(s[p], s[q]) || le(s[w], s[q]),
{
    assert forall|p: int, q: int, w: int|
        #![trigger le(s[p], s[q]), le(s[w], s[q])]
        0 <= p < q && q < w < s.len() implies le(s[p], s[q]) || le(s[w], s[q]) by {
        if !le(s[p], s[q]) {
            assert(q >= mid);
            assert(flipped(le)(s[q], s[w]));
        }
    }
}

/// Every cyclic rotation of a rise-then-fall run is bitonic in the
/// index-level sense: this ties the predicate above to the usual
/// definition of a bitonic sequence.  Each of the four positions of an
/// interleaved separation reads the run at its pre-rotation place, and
/// in every way the rotation boundary can fall among them, three of
/// them line up as a strict valley in the run.
pub proof fn lemma_rotation_bitonic<T>(
    s: Seq<T>,
    t: Seq<T>,
    r: int,
    mid: int,
    le: spec_fn(T, T) -> bool,
)
    requires
        0 <= r <= s.len(),
        0 <= mid <= s.len(),
        sorted_between(s, 0, mid, le),
        sorted_between(s, mid, s.len() as int, flipped(le)),
        t == s.subrange(r, s.len() as int) + s.subrange(0, r),
    ensures
        bitonic(t, 0, t.len() as int, le),
{
    let n = s.len() as int;
    lemma_rise_fall_no_valley(s, mid, le);
    assert(t.len() == n);
    assert forall|a: int, b: int, c: int, d: int|
        0 <= a && a < b && b < c && c < d && d < n implies !towers_over(t, a, c, b, d, le)
        && !towers_over(t, b, d, a, c, le) by {
        let pa = if a < n - r {
            a + r
        } else {
            a - (n - r)
        };
        let pb = if b < n - r {
            b + r
        } else {
            b - (n - r)
        };
        let pc = if c < n - r {
            c + r
        } else {
            c - (n - r)
        };
        let pd = if d < n - r {
            d + r
        } else {
            d - (n - r)
        };
        assert(t[a] == s[pa]);
        assert(t[b] == s[pb]);
        assert(t[c] == s[pc]);
        assert(t[d] == s[pd]);
        if towers_over(t, a, c, b, d, le) {
            if c < n - r {
                assert(!le(s[pa], s[pb]) && !le(s[pc], s[pb]));
                assert(false);
            } else if b < n - r {
                assert(!le(s[pc], s[pd]) && !le(s[pa], s[pd]));
                assert(false);
            } else if a < n - r {
                assert(!le(s[pc], s[pd]) && !le(s[pa], s[pd]));
                assert(false);
            } else {
                assert(!le(s[pa], s[pb]) && !le(s[pc], s[pb]));
                assert(false);
            }
        }
        if towers_over(t, b, d, a, c, le) {
            if d < n - r {
                assert(!le(s[pb], s[pc]) && !le(s[pd], s[pc]));
                assert(false);
            } else if c < n - r {
                assert(!le(s[pd], s[pa]) && !le(s[pb], s[pa]));
                assert(false);
            } else if b < n - r {
                assert(!le(s[pd], s[pa]) && !le(s[pb], s[pa]));
                assert(false);
            } else {
                assert(!le(s[pb], s[pc]) && !le(s[pd], s[pc]));
                assert(false);
            }
        }
    }
}

/// The bitonic shape does not depend on the direction: the mirrored
/// relation separates the same interleaved pairs, with the roles
/// exchanged.
pub proof fn lemma_bitonic_flipped<T>(s: Seq<T>, lo: int, hi: int, le: spec_fn(T, T) -> bool)
    requires
        bitonic(s, lo, hi, le),
    ensures
        bitonic(s, lo, hi, flipped(le)),
{
    assert forall|a: int, b: int, c: int, d: int|
        lo <= a && a < b && b < c && c < d && d < hi implies !towers_over(
        s,
        a,
        c,
        b,
        d,
        flipped(le),
    ) && !towers_over(s, b, d, a, c, flipped(le)) by {
        assert(!towers_over(s, a, c, b, d, le));
        assert(!towers_over(s, b, d, a, c, le));
    }
}

/// From a strict separation `!le(p, q)`, anything above `p` sits
/// strictly above anything below `q`.
proof fn lemma_separate<T>(le: spec_fn(T, T) -> bool, p: T, q: T, x: T, y: T)
    requires
        total_preorder(le),
        !le(p, q),
        le(p, x),
        le(y, q),
    ensures
        !le(x, y),
{
    if le(x, y) {
        assert(le(p, y));
        assert(le(p, q));
    }
}

/// Pointwise description of one compare-and-swap sweep: each left slot
/// holds the lower of its pair, each right slot the higher, and slots
/// outside the window keep their values.
pub proof fn lemma_half_clean_facts<T>(
    s: Seq<T>,
    t: Seq<T>,
    lo: int,
    hi: int,
    m: int,
    le: spec_fn(T, T) -> bool,
)
    requires
        total_preorder(le),
        0 <= lo <= hi <= s.len(),
        (hi - lo) % 2 == 0,
        m == lo + (hi - lo) / 2,
        t == half_clean(s, lo, hi, le),
    ensures
        t.len() == s.len(),
        forall|k: int| #![trigger t[k]] 0 <= k < s.len() && !(lo <= k < hi) ==> t[k] == s[k],
        forall|k: int|
            #![trigger t[k]]
            lo <= k < m ==> (t[k] == s[k] || t[k] == s[k + (m - lo)]) && le(t[k], s[k]) && le(
                t[k],
                s[k + (m - lo)],
            ),
        forall|k: int|
            #![trigger t[k]]
            m <= k < hi ==> (t[k] == s[k] || t[k] == s[k - (m - lo)]) && le(s[k], t[k]) && le(
                s[k - (m - lo)],
                t[k],
            ),
        forall|k: int| lo <= k < m ==> #[trigger] le(t[k], t[k + (m - lo)]),
{
    let half = m - lo;
    assert forall|k: int| #![trigger t[k]] lo <= k < m implies (t[k] == s[k] || t[k] == s[k + (m
        - lo)]) && le(t[k], s[k]) && le(t[k], s[k + (m - lo)]) by {
        assert(le(s[k], s[k]) || le(s[k], s[k]));
        assert(le(s[k + half], s[k + half]) || le(s[k + half], s[k + half]));
        if le(s[k], s[k + half]) {
            assert(t[k] == s[k]);
        } else {
            assert(t[k] == s[k + half]);
            assert(le(s[k + half], s[k]));
        }
    }
    assert forall|k: int| #![trigger t[k]] m <= k < hi implies (t[k] == s[k] || t[k] == s[k - (m
        - lo)]) && le(s[k], t[k]) && le(s[k - (m - lo)], t[k]) by {
        assert(le(s[k], s[k]) || le(s[k], s[k]));
        assert(le(s[k - half], s[k - half]) || le(s[k - half], s[k - half]));
        if le(s[k - half], s[k]) {
            assert(t[k] == s[k]);
        } else {
            assert(t[k] == s[k - half]);
            assert(le(s[k], s[k - half]));
        }
    }
    assert forall|k: int| lo <= k < m implies #[trigger] le(t[k], t[k + (m - lo)]) by {
        if le(s[k], s[k + half]) {
            assert(t[k] == s[k] && t[k + half] == s[k + half]);
        } else {
            assert(t[k] == s[k + half] && t[k + half] == s[k]);
            assert(le(s[k + half], s[k]));
        }
    }
}

/// After the sweep, everything in the left half of the window sits
/// below everything in the right half.
pub proof fn lemma_half_clean_cross<T>(
    s: Seq<T>,
    t: Seq<T>,
    lo: int,
    hi: int,
    m: int,
    le: spec_fn(T, T) -> bool,
)
    requires
        total_preorder(le),
        0 <= lo <= hi <= s.len(),
        (hi - lo) % 2 == 0,
        m == lo + (hi - lo) / 2,
        t == half_clean(s, lo, hi, le),
        bitonic(s, lo, hi, le),
    ensures
        forall|i: int, j: int| lo <= i < m <= j < hi ==> #[trigger] le(t[i], t[j]),
{
    let half = m - lo;
    lemma_half_clean_facts(s, t, lo, hi, m, le);
    assert forall|i: int, j: int| lo <= i < m <= j < hi implies #[trigger] le(t[i], t[j]) by {
        let k = j - half;
        if i == k {
            assert(le(t[i], t[i + (m - lo)]));
        } else if !le(t[i], t[j]) {
            // Both elements of pair i would sit strictly above both of
            // pair k, an interleaved separation the window cannot hold.
            lemma_separate(le, t[i], t[j], s[i], s[k]);
            lemma_separate(le, t[i], t[j], s[i], s[k + half]);
            lemma_separate(le, t[i], t[j], s[i + half], s[k]);
            lemma_separate(le, t[i], t[j], s[i + half], s[k + half]);
            assert(towers_over(s, i, i + half, k, k + half, le));
        }
    }
}

/// From a strict separation `!le(p, q)`, anything above `p` also sits
/// strictly above `q`.
proof fn lemma_above<T>(le: spec_fn(T, T) -> bool, p: T, q: T, x: T)
    requires
        total_preorder(le),
        !le(p, q),
        le(p, x),
    ensures
        !le(x, q),
{
    if le(x, q) {
        assert(le(p, q));
    }
}

/// From a strict separation `!le(p, q)`, anything below `q` also sits
/// strictly below `p`.
proof fn lemma_below<T>(le: spec_fn(T, T) -> bool, p: T, q: T, y: T)
    requires
        total_preorder(le),
        !le(p, q),
        le(y, q),
    ensures
        !le(p, y),
{
    if le(p, y) {
        assert(le(p, q));
    }
}

/// After the sweep, the left half of the window is bitonic again: an
/// interleaved separation among the pair minimums would lift, through
/// the positions the low minimums came from, to one in the original
/// window.
pub proof fn lemma_half_clean_left<T>(
    s: Seq<T>,
    t: Seq<T>,
    lo: int,
    hi: int,
    m: int,
    le: spec_fn(T, T) -> bool,
)
    requires
        total_preorder(le),
        0 <= lo <= hi <= s.len(),
        (hi - lo) % 2 == 0,
        m == lo + (hi - lo) / 2,
        t == half_clean(s, lo, hi, le),
        bitonic(s, lo, hi, le),
    ensures
        bitonic(t, lo, m, le),
{
    let half = m - lo;
    lemma_half_clean_facts(s, t, lo, hi, m, le);
    assert forall|a: int, b: int, c: int, d: int|
        lo <= a && a < b && b < c && c < d && d < m implies !towers_over(t, a, c, b, d, le)
        && !towers_over(t, b, d, a, c, le) by {
        if towers_over(t, a, c, b, d, le) {
            let bw = if le(s[b], s[b + half]) {
                b
            } else {
                b + half
            };
            let dw = if le(s[d], s[d + half]) {
                d
            } else {
                d + half
            };
            assert(t[b] == s[bw]);
            assert(t[d] == s[dw]);
            lemma_above(le, t[a], t[b], s[a]);
            lemma_above(le, t[a], t[b], s[a + half]);
            lemma_above(le, t[c], t[b], s[c]);
            lemma_above(le, t[c], t[b], s[c + half]);
            lemma_above(le, t[a], t[d], s[a]);
            lemma_above(le, t[a], t[d], s[a + half]);
            lemma_above(le, t[c], t[d], s[c]);
            lemma_above(le, t[c], t[d], s[c + half]);
            if bw == b && dw == d {
                assert(towers_over(s, a, c, b, d, le));
            } else if bw == b {
                assert(towers_over(s, a, c, b, d + half, le));
            } else if dw == d {
                assert(towers_over(s, a + half, c + half, d, b + half, le));
            } else {
                assert(towers_over(s, a + half, c + half, b + half, d + half, le));
            }
            assert(false);
        }
        if towers_over(t, b, d, a, c, le) {
            let aw = if le(s[a], s[a + half]) {
                a
            } else {
                a + half
            };
            let cw = if le(s[c], s[c + half]) {
                c
            } else {
                c + half
            };
            assert(t[a] == s[aw]);
            assert(t[c] == s[cw]);
            lemma_above(le, t[b], t[a], s[b]);
            lemma_above(le, t[b], t[a], s[b + half]);
            lemma_above(le, t[d], t[a], s[d]);
            lemma_above(le, t[d], t[a], s[d + half]);
            lemma_above(le, t[b], t[c], s[b]);
            lemma_above(le, t[b], t[c], s[b + half]);
            lemma_above(le, t[d], t[c], s[d]);
            lemma_above(le, t[d], t[c], s[d + half]);
            if aw == a && cw == c {
                assert(towers_over(s, b, d, a, c, le));
            } else if aw == a {
                assert(towers_over(s, b, d + half, a, c + half, le));
            } else if cw == c {
                assert(towers_over(s, d, b + half, c, a + half, le));
            } else {
                assert(towers_over(s, b, b + half, a + half, c + half, le));
            }
            assert(false);
        }
    }
}

/// After the sweep, the right half of the window is bitonic again: an
/// interleaved separation among the pair maximums would lift, through
/// the positions the high maximums came from, to one in the original
/// window.
pub proof fn lemma_half_clean_right<T>(
    s: Seq<T>,
    t: Seq<T>,
    lo: int,
    hi: int,
    m: int,
    le: spec_fn(T, T) -> bool,
)
    requires
        total_preorder(le),
        0 <= lo <= hi <= s.len(),
        (hi - lo) % 2 == 0,
        m == lo + (hi - lo) / 2,
        t == half_clean(s, lo, hi, le),
        bitonic(s, lo, hi, le),
    ensures
        bitonic(t, m, hi, le),
{
    let half = m - lo;
    lemma_half_clean_facts(s, t, lo, hi, m, le);
    assert forall|a: int, b: int, c: int, d: int|
        m <= a && a < b && b < c && c < d && d < hi implies !towers_over(t, a, c, b, d, le)
        && !towers_over(t, b, d, a, c, le) by {
        if towers_over(t, a, c, b, d, le) {
            let aw = if le(s[a - half], s[a]) {
                a
            } else {
                a - half
            };
            let cw = if le(s[c - half], s[c]) {
                c
            } else {
                c - half
            };
            assert(t[a] == s[aw]);
            assert(t[c] == s[cw]);
            lemma_below(le, t[a], t[b], s[b - half]);
            lemma_below(le, t[a], t[b], s[b]);
            lemma_below(le, t[a], t[d], s[d - half]);
            lemma_below(le, t[a], t[d], s[d]);
            lemma_below(le, t[c], t[b], s[b - half]);
            lemma_below(le, t[c], t[b], s[b]);
            lemma_below(le, t[c], t[d], s[d - half]);
            lemma_below(le, t[c], t[d], s[d]);
            if aw == a - half && cw == c - half {
                assert(towers_over(s, a - half, c - half, b - half, d - half, le));
            } else if aw == a - half {
                assert(towers_over(s, a - half, c, b - half, d, le));
            } else if cw == c - half {
                assert(towers_over(s, c - half, a, d - half, b, le));
            } else {
                assert(towers_over(s, a, c, b - half, b, le));
            }
            assert(false);
        }
        if towers_over(t, b, d, a, c, le) {
            let bw = if le(s[b - half], s[b]) {
                b
            } else {
                b - half
            };
            let dw = if le(s[d - half], s[d]) {
                d
            } else {
                d - half
            };
            assert(t[b] == s[bw]);
            assert(t[d] == s[dw]);
            lemma_below(le, t[b], t[a], s[a - half]);
            lemma_below(le, t[b], t[a], s[a]);
            lemma_below(le, t[b], t[c], s[c - half]);
            lemma_below(le, t[b], t[c], s[c]);
            lemma_below(le, t[d], t[a], s[a - half]);
            lemma_below(le, t[d], t[a], s[a]);
            lemma_below(le, t[d], t[c], s[c - half]);
            lemma_below(le, t[d], t[c], s[c]);
            if bw == b - half && dw == d - half {
                assert(towers_over(s, b - half, d - half, a - half, c - half, le));
            } else if bw == b - half {
                assert(towers_over(s, b - half, d, a - half, c - half, le));
            } else if dw == d - half {
                assert(towers_over(s, d - half, b, c - half, a, le));
            } else {
                assert(towers_over(s, b, d, a, c, le));
            }
            assert(false);
        }
    }
}

/// Chains adjacent comparisons from `i` up to `j`.
proof fn lemma_le_span<T>(s: Seq<T>, lo: int, hi: int, le: spec_fn(T, T) -> bool, i: int, j: int)
    requires
        total_preorder(le),
        forall|k: int| #![trigger s[k]] lo <= k < hi - 1 ==> le(s[k], s[k + 1]),
        lo <= i <= j < hi,
    ensures
        le(s[i], s[j]),
    decreases j - i,
{
    if i == j {
        assert(le(s[i], s[i]) || le(s[i], s[i]));
    } else {
        lemma_le_span(s, lo, hi, le, i, j - 1);
        assert(le(s[j - 1], s[j]));
    }
}

/// A window whose every adjacent pair is ordered is sorted throughout.
pub proof fn lemma_adjacent_sorted<T>(s: Seq<T>, lo: int, hi: int, le: spec_fn(T, T) -> bool)
    requires
        total_preorder(le),
        forall|k: int| #![trigger s[k]] lo <= k < hi - 1 ==> le(s[k], s[k + 1]),
    ensures
        sorted_between(s, lo, hi, le),
{
    assert forall|i: int, j: int| lo <= i <= j < hi implies #[trigger] le(s[i], s[j]) by {
        lemma_le_span(s, lo, hi, le, i, j);
    }
}

/// Sortedness reads only the window, so equal windows share it.
pub proof fn lemma_sorted_window<T>(
    s1: Seq<T>,
    s2: Seq<T>,
    lo: int,
    hi: int,
    le: spec_fn(T, T) -> bool,
)
    requires
        sorted_between(s1, lo, hi, le),
        forall|k: int| lo <= k < hi ==> s2[k] == s1[k],
    ensures
        sorted_between(s2, lo, hi, le),
{
    assert forall|i: int, j: int| lo <= i <= j < hi implies #[trigger] le(s2[i], s2[j]) by {
        assert(s2[i] == s1[i] && s2[j] == s1[j]);
        assert(le(s1[i], s1[j]));
    }
}

/// The bitonic shape reads only the window, so equal windows share it.
pub proof fn lemma_bitonic_window<T>(
    s1: Seq<T>,
    s2: Seq<T>,
    lo: int,
    hi: int,
    le: spec_fn(T, T) -> bool,
)
    requires
        bitonic(s1, lo, hi, le),
        forall|k: int| lo <= k < hi ==> s2[k] == s1[k],
    ensures
        bitonic(s2, lo, hi, le),
{
    assert forall|a: int, b: int, c: int, d: int|
        lo <= a && a < b && b < c && c < d && d < hi implies !towers_over(s2, a, c, b, d, le)
        && !towers_over(s2, b, d, a, c, le) by {
        assert(s2[a] == s1[a] && s2[b] == s1[b] && s2[c] == s1[c] && s2[d] == s1[d]);
        assert(!towers_over(s1, a, c, b, d, le));
        assert(!towers_over(s1, b, d, a, c, le));
    }
}

} // verus!
