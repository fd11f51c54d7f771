//! Ordering relations the network sorts by.
//!
//! Every contract in this crate is stated over a spec-level "less or
//! equal" relation of type `spec_fn(T, T) -> bool`.  The direction-based
//! entry points use the natural order of an `Ord` type (or its mirror);
//! the comparator-based entry point uses the relation induced by the
//! caller's comparator.  The network lemmas only ever assume that the
//! relation is a total preorder.

use vstd::prelude::*;
use vstd::std_specs::cmp::{OrdSpec, PartialEqSpec, PartialOrdSpec};
use core::cmp::Ordering;

verus! {

/// A total preorder: any two values compare, and comparisons chain.
pub open spec fn total_preorder<T>(le: spec_fn(T, T) -> bool) -> bool {
    &&& forall|a: T, b: T| #[trigger] le(a, b) || le(b, a)
    &&& forall|a: T, b: T, c: T| #![trigger le(a, b), le(b, c)] le(a, b) && le(b, c) ==> le(a, c)
}

/// Two values below each other are the same value.  Together with
/// `total_preorder` this pins the sorted arrangement down uniquely.
pub open spec fn antisymmetric<T>(le: spec_fn(T, T) -> bool) -> bool {
    forall|a: T, b: T| #![trigger le(a, b), le(b, a)] le(a, b) && le(b, a) ==> a == b
}

/// The mirror of a relation; sorting by it reverses the direction.
pub open spec fn flipped<T>(le: spec_fn(T, T) -> bool) -> spec_fn(T, T) -> bool {
    |a: T, b: T| le(b, a)
}

/// The natural order of an `Ord` type, as its `cmp` reports it.
pub open spec fn natural_le<T: Ord>() -> spec_fn(T, T) -> bool {
    |a: T, b: T| a.cmp_spec(&b) != Ordering::Greater
}

/// The relation a direction flag selects: the natural order when
/// `forward`, its mirror otherwise.
pub open spec fn directed_le<T: Ord>(forward: bool) -> spec_fn(T, T) -> bool {
    if forward {
        natural_le::<T>()
    } else {
        flipped(natural_le::<T>())
    }
}

/// When a type's `Ord` obeys the comparison laws, the natural order and
/// its mirror are total preorders.
pub proof fn lemma_natural_total_preorder<T: Ord>()
    requires
        vstd::laws_cmp::obeys_cmp::<T>(),
    ensures
        total_preorder(natural_le::<T>()),
        total_preorder(flipped(natural_le::<T>())),
        T::obeys_cmp_spec(),
{
    reveal(vstd::laws_cmp::obeys_partial_cmp_spec_properties);
    reveal(vstd::laws_cmp::obeys_cmp_partial_ord);
    reveal(vstd::laws_cmp::obeys_cmp_ord);
    reveal(vstd::laws_eq::obeys_eq_spec_properties);
    let le = natural_le::<T>();
    assert forall|a: T, b: T| #[trigger] le(a, b) || le(b, a) by {
        if a.cmp_spec(&b) == Ordering::Greater {
            assert(a.partial_cmp_spec(&b) == Some(Ordering::Greater));
            assert(b.partial_cmp_spec(&a) == Some(Ordering::Less));
        }
    }
    assert forall|a: T, b: T, c: T| #![trigger le(a, b), le(b, c)] le(a, b) && le(b, c) implies le(
        a,
        c,
    ) by {
        lemma_natural_le_trans(a, b, c);
    }
    assert forall|a: T, b: T| #[trigger] flipped(le)(a, b) || flipped(le)(b, a) by {
        assert(le(b, a) || le(a, b));
    }
    assert forall|a: T, b: T, c: T|
        #![trigger flipped(le)(a, b), flipped(le)(b, c)]
        flipped(le)(a, b) && flipped(le)(b, c) implies flipped(le)(a, c) by {
        lemma_natural_le_trans(c, b, a);
    }
}

proof fn lemma_natural_le_trans<T: Ord>(a: T, b: T, c: T)
    requires
        vstd::laws_cmp::obeys_cmp::<T>(),
        natural_le::<T>()(a, b),
        natural_le::<T>()(b, c),
    ensures
        natural_le::<T>()(a, c),
{
    reveal(vstd::laws_cmp::obeys_partial_cmp_spec_properties);
    reveal(vstd::laws_cmp::obeys_cmp_partial_ord);
    reveal(vstd::laws_cmp::obeys_cmp_ord);
    reveal(vstd::laws_eq::obeys_eq_spec_properties);
    if a.cmp_spec(&c) == Ordering::Greater {
        assert(a.partial_cmp_spec(&c) == Some(Ordering::Greater));
        assert(c.partial_cmp_spec(&a) == Some(Ordering::Less));
        if a.cmp_spec(&b) == Ordering::Less && b.cmp_spec(&c) == Ordering::Less {
            assert(a.partial_cmp_spec(&c) == Some(Ordering::Less));
        } else if a.cmp_spec(&b) == Ordering::Less {
            // b and c are tied, so a above c would put c strictly below b.
            assert(b.eq_spec(&c));
            assert(c.partial_cmp_spec(&b) == Some(Ordering::Less));
            assert(c.eq_spec(&b));
        } else if b.cmp_spec(&c) == Ordering::Less {
            assert(a.eq_spec(&b));
            assert(b.partial_cmp_spec(&a) == Some(Ordering::Less));
            assert(b.eq_spec(&a));
        } else {
            assert(a.eq_spec(&b) && b.eq_spec(&c));
            assert(a.eq_spec(&c));
        }
    }
}

/// The two strict sides of the natural order mirror each other: `a`
/// strictly above `b` is `b` strictly below `a`.
pub proof fn lemma_natural_mirror<T: Ord>()
    requires
        vstd::laws_cmp::obeys_cmp::<T>(),
    ensures
        forall|a: T, b: T|
            #![trigger a.cmp_spec(&b)]
            a.cmp_spec(&b) == Ordering::Less <==> b.cmp_spec(&a) == Ordering::Greater,
{
    reveal(vstd::laws_cmp::obeys_partial_cmp_spec_properties);
    reveal(vstd::laws_cmp::obeys_cmp_partial_ord);
    reveal(vstd::laws_cmp::obeys_cmp_ord);
    assert forall|a: T, b: T| #![trigger a.cmp_spec(&b)] a.cmp_spec(&b) == Ordering::Less
        <==> b.cmp_spec(&a) == Ordering::Greater by {
        assert(a.partial_cmp_spec(&b) == Some(a.cmp_spec(&b)));
        assert(b.partial_cmp_spec(&a) == Some(b.cmp_spec(&a)));
    }
}

/// When a type's `Ord` also agrees with plain equality, the natural
/// order and its mirror are antisymmetric.
pub proof fn lemma_natural_antisymmetric<T: Ord>()
    requires
        vstd::laws_cmp::obeys_cmp::<T>(),
        vstd::laws_eq::obeys_concrete_eq::<T>(),
    ensures
        antisymmetric(natural_le::<T>()),
        antisymmetric(flipped(natural_le::<T>())),
{
    reveal(vstd::laws_cmp::obeys_partial_cmp_spec_properties);
    reveal(vstd::laws_cmp::obeys_cmp_partial_ord);
    reveal(vstd::laws_cmp::obeys_cmp_ord);
    reveal(vstd::laws_eq::obeys_concrete_eq);
    let le = natural_le::<T>();
    assert forall|a: T, b: T| #![trigger le(a, b), le(b, a)] le(a, b) && le(b, a) implies a
        == b by {
        if a.cmp_spec(&b) == Ordering::Less {
            assert(a.partial_cmp_spec(&b) == Some(Ordering::Less));
            assert(b.partial_cmp_spec(&a) == Some(Ordering::Greater));
        }
        assert(a.cmp_spec(&b) == Ordering::Equal);
        assert(a.partial_cmp_spec(&b) == Some(Ordering::Equal));
        assert(a.eq_spec(&b));
    }
    assert forall|a: T, b: T|
        #![trigger flipped(le)(a, b), flipped(le)(b, a)]
        flipped(le)(a, b) && flipped(le)(b, a) implies a == b by {
        assert(le(b, a) && le(a, b));
    }
}

} // verus!
