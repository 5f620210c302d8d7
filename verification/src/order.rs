//! The order on values that the tree relies on.
//!
//! Every comparison in the library goes through `Ord::cmp`. The contracts speak
//! of its specification, `cmp_spec`, and of the laws collected in
//! [`is_total_order`]. For the integer types `vstd` proves those laws: a caller
//! gets them from the broadcast groups `vstd::laws_cmp::group_laws_cmp` and
//! `vstd::laws_eq::group_laws_eq`.

use std::cmp::Ordering;
use vstd::laws_cmp::*;
use vstd::laws_eq::*;
use vstd::prelude::*;
use vstd::std_specs::cmp::{OrdSpec, PartialOrdSpec};

verus! {

/// `a` stands strictly before `b`.
pub open spec fn lt<T: Ord>(a: T, b: T) -> bool {
    a.cmp_spec(&b) == Ordering::Less
}

/// The comparison of `T` is a strict total order whose notion of "equal" is
/// equality of values: `cmp` computes `cmp_spec`, which obeys the laws of
/// `Ord`, and two values compare as equal exactly when they are the same value.
pub open spec fn is_total_order<T: Ord>() -> bool {
    obeys_cmp::<T>() && obeys_concrete_eq::<T>()
}

/// Comparing as equal is being equal, and `Greater` is `Less` read backwards.
pub proof fn lemma_cmp_cases<T: Ord>(a: T, b: T)
    requires
        is_total_order::<T>(),
    ensures
        T::obeys_cmp_spec(),
        a.cmp_spec(&b) == Ordering::Equal <==> a == b,
        a.cmp_spec(&b) == Ordering::Greater <==> lt(b, a),
        lt(a, b) ==> a != b && !lt(b, a),
{
    reveal(obeys_cmp_ord);
    reveal(obeys_cmp_partial_ord);
    reveal(obeys_partial_cmp_spec_properties);
    reveal(obeys_concrete_eq);
    assert(a.partial_cmp_spec(&b) == Some(a.cmp_spec(&b)));
    assert(b.partial_cmp_spec(&a) == Some(b.cmp_spec(&a)));
}

/// `lt` is transitive.
pub proof fn lemma_lt_transitive<T: Ord>(a: T, b: T, c: T)
    requires
        is_total_order::<T>(),
        lt(a, b),
        lt(b, c),
    ensures
        lt(a, c),
{
    reveal(obeys_cmp_ord);
    reveal(obeys_partial_cmp_spec_properties);
    assert(a.partial_cmp_spec(&b) == Some(a.cmp_spec(&b)));
    assert(b.partial_cmp_spec(&c) == Some(b.cmp_spec(&c)));
    assert(a.partial_cmp_spec(&c) == Some(a.cmp_spec(&c)));
}

} // verus!
