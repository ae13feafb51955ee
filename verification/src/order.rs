use std::cmp::Ordering;
use vstd::laws_cmp::{group_laws_cmp, obeys_cmp, obeys_cmp_ord, obeys_cmp_partial_ord, obeys_partial_cmp_spec_properties};
use vstd::laws_eq::{group_laws_eq, obeys_concrete_eq, obeys_eq_spec_properties};
use vstd::prelude::*;
use vstd::relations::{sorted_by, total_ordering};
use vstd::seq_lib::lemma_sorted_unique;
use vstd::std_specs::cmp::{OrdSpec, PartialEqSpec, PartialOrdSpec};

verus! {

/// Whether the comparisons of `T` compute a total order under which two values
/// compare equal exactly when they are the same value.
///
/// Every contract of this crate that speaks of equal or ordered elements holds
/// for such types; the integer types are among them.
pub open spec fn total_order<T: Ord>() -> bool {
    obeys_cmp::<T>() && obeys_concrete_eq::<T>()
}

/// `a` comes no later than `b` in the order of `T`.
pub open spec fn precedes<T: Ord>(a: T, b: T) -> bool {
    a.cmp_spec(&b) != Ordering::Greater
}

/// Every element of `s` comes no later than every element behind it.
pub open spec fn sorted<T: Ord>(s: Seq<T>) -> bool {
    forall|i: int, j: int| 0 <= i < j < s.len() ==> precedes(#[trigger] s[i], #[trigger] s[j])
}

/// Every segment is sorted in itself.
pub open spec fn all_sorted<T: Ord>(segments: Seq<Seq<T>>) -> bool {
    forall|i: int| 0 <= i < segments.len() ==> sorted(#[trigger] segments[i])
}

/// What a total order gives: the comparison operators agree with their
/// specifications and with each other, and `precedes` is reflexive,
/// antisymmetric, transitive and total.
pub proof fn lemma_total_order<T: Ord>()
    requires
        total_order::<T>(),
    ensures
        T::obeys_eq_spec(),
        T::obeys_partial_cmp_spec(),
        T::obeys_cmp_spec(),
        forall|a: T, b: T| #[trigger] a.eq_spec(&b) <==> a == b,
        forall|a: T, b: T| #[trigger] a.partial_cmp_spec(&b) == Some(a.cmp_spec(&b)),
        forall|a: T, b: T| #[trigger] a.cmp_spec(&b) == Ordering::Equal <==> a == b,
        forall|a: T| #[trigger] precedes(a, a),
        forall|a: T, b: T| #[trigger] precedes(a, b) || #[trigger] precedes(b, a),
        forall|a: T, b: T| #[trigger] precedes(a, b) && #[trigger] precedes(b, a) ==> a == b,
        forall|a: T, b: T, c: T| #[trigger] precedes(a, b) && #[trigger] precedes(b, c) ==> precedes(a, c),
{
    reveal(obeys_eq_spec_properties);
    reveal(obeys_concrete_eq);
    reveal(obeys_partial_cmp_spec_properties);
    reveal(obeys_cmp_partial_ord);
    reveal(obeys_cmp_ord);
    assert forall|a: T, b: T| #[trigger] a.cmp_spec(&b) == Ordering::Equal <==> a == b by {
        assert(a.partial_cmp_spec(&b) == Some(a.cmp_spec(&b)));
        assert(a.eq_spec(&b) <==> a == b);
    }
    assert forall|a: T, b: T| #[trigger] precedes(a, b) || #[trigger] precedes(b, a) by {
        assert(a.partial_cmp_spec(&b) == Some(a.cmp_spec(&b)));
        assert(b.partial_cmp_spec(&a) == Some(b.cmp_spec(&a)));
    }
    assert forall|a: T, b: T| #[trigger] precedes(a, b) && #[trigger] precedes(b, a) implies a == b by {
        assert(a.partial_cmp_spec(&b) == Some(a.cmp_spec(&b)));
        assert(b.partial_cmp_spec(&a) == Some(b.cmp_spec(&a)));
    }
    assert forall|a: T, b: T, c: T| #[trigger] precedes(a, b) && #[trigger] precedes(b, c) implies precedes(a, c) by {
        assert(a.partial_cmp_spec(&b) == Some(a.cmp_spec(&b)));
        assert(b.partial_cmp_spec(&c) == Some(b.cmp_spec(&c)));
        assert(a.partial_cmp_spec(&c) == Some(a.cmp_spec(&c)));
        assert(c.partial_cmp_spec(&a) == Some(c.cmp_spec(&a)));
    }
}

/// Of totally ordered elements, two sorted sequences that hold the same
/// elements, each as often as the other, are the same sequence.
pub proof fn lemma_sorted_is_unique<T: Ord>(a: Seq<T>, b: Seq<T>)
    requires
        total_order::<T>(),
        sorted(a),
        sorted(b),
        a.to_multiset() == b.to_multiset(),
    ensures
        a == b,
{
    lemma_total_order::<T>();
    let leq = |x: T, y: T| precedes(x, y);
    assert(total_ordering(leq));
    assert(sorted_by(a, leq));
    assert(sorted_by(b, leq));
    lemma_sorted_unique(a, b, leq);
}

/// The signed 32-bit integers are totally ordered.
pub proof fn lemma_i32_total_order()
    ensures
        total_order::<i32>(),
{
    broadcast use {group_laws_cmp, group_laws_eq};
}

/// The unsigned 64-bit integers are totally ordered.
pub proof fn lemma_u64_total_order()
    ensures
        total_order::<u64>(),
{
    broadcast use {group_laws_cmp, group_laws_eq};
}

} // verus!
