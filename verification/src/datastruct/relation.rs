//! The order and the equality of payloads, as their type's `PartialOrd` and
//! `PartialEq` define them, and what the algorithms ask of them.

use core::cmp::Ordering;
use vstd::prelude::*;
use vstd::std_specs::cmp::{PartialEqSpec, PartialOrdSpec};

verus! {

/// `a <= b`, as the payload type compares.
pub open spec fn at_most<T: PartialOrd>(a: T, b: T) -> bool {
    a.partial_cmp_spec(&b) == Some(Ordering::Less) || a.partial_cmp_spec(&b) == Some(
        Ordering::Equal,
    )
}

/// The type's `==` holds of two payloads exactly where they are the same
/// value.
pub open spec fn lawful_eq<T: PartialEq>() -> bool {
    &&& T::obeys_eq_spec()
    &&& forall|a: T, b: T| #[trigger] a.eq_spec(&b) <==> a == b
}

/// The type's comparison is a total order of its values: any two are
/// comparable, only a value itself is both below and above it, and what is
/// below a value is below everything above that value.
pub open spec fn lawful_order<T: PartialOrd>() -> bool {
    &&& lawful_eq::<T>()
    &&& T::obeys_partial_cmp_spec()
    &&& forall|a: T, b: T| #[trigger] at_most(a, b) || at_most(b, a)
    &&& forall|a: T, b: T| #[trigger] at_most(a, b) && at_most(b, a) ==> a == b
    &&& forall|a: T, b: T, c: T| #[trigger] at_most(a, b) && #[trigger] at_most(b, c) ==> at_most(a, c)
    &&& forall|a: T, b: T| #[trigger]
        a.partial_cmp_spec(&b) == Some(Ordering::Greater) <==> !at_most(a, b)
}

/// In a lawful order every value is at most itself.
pub proof fn lemma_order_reflexive<T: PartialOrd>(a: T)
    requires
        lawful_order::<T>(),
    ensures
        at_most(a, a),
{
    assert(at_most(a, a) || at_most(a, a));
}

/// The order of `i32` is lawful, and is the order of the integers.
pub proof fn lemma_i32_order()
    ensures
        lawful_eq::<i32>(),
        lawful_order::<i32>(),
        forall|a: i32, b: i32| at_most(a, b) <==> a <= b,
{
}

/// The order of `i64` is lawful, and is the order of the integers.
pub proof fn lemma_i64_order()
    ensures
        lawful_eq::<i64>(),
        lawful_order::<i64>(),
        forall|a: i64, b: i64| at_most(a, b) <==> a <= b,
{
}

/// The order of `u32` is lawful, and is the order of the integers.
pub proof fn lemma_u32_order()
    ensures
        lawful_eq::<u32>(),
        lawful_order::<u32>(),
        forall|a: u32, b: u32| at_most(a, b) <==> a <= b,
{
}

/// The order of `u64` is lawful, and is the order of the integers.
pub proof fn lemma_u64_order()
    ensures
        lawful_eq::<u64>(),
        lawful_order::<u64>(),
        forall|a: u64, b: u64| at_most(a, b) <==> a <= b,
{
}

} // verus!
