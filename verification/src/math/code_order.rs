use vstd::prelude::*;

verus! {

use core::cmp::Ordering;
use vstd::std_specs::cmp::{PartialEqSpec, PartialOrdSpec};
use crate::math::morton::MortonCode;
use crate::larp::lbvh::MortonPrimitive;

/// `==` between values of types `T` and `R` follows its specification.
pub open spec fn eq_is_specified<T: PartialEqSpec<R>, R>() -> bool {
    T::obeys_eq_spec()
}

/// What `x == y` answers, where `==` follows its specification.
pub open spec fn equal<T: PartialEqSpec<R>, R>(x: T, y: R) -> bool {
    x.eq_spec(&y)
}

/// `partial_cmp` between values of types `T` and `R` follows its specification.
pub open spec fn order_is_specified<T: PartialOrdSpec<R>, R>() -> bool {
    T::obeys_partial_cmp_spec()
}

/// What `x.partial_cmp(&y)` answers, where it follows its specification; `<`,
/// `<=`, `>` and `>=` answer from it.
pub open spec fn compared<T: PartialOrdSpec<R>, R>(x: T, y: R) -> Option<Ordering> {
    x.partial_cmp_spec(&y)
}

/// A 32-bit Morton code equals a plain integer exactly when its value does.
pub proof fn lemma_code_eq_u32(a: u32, b: u32)
    ensures
        eq_is_specified::<MortonCode<u32>, u32>(),
        equal(MortonCode(a), b) <==> a == b,
{
}

/// A 64-bit Morton code equals a plain integer exactly when its value does.
pub proof fn lemma_code_eq_u64(a: u64, b: u64)
    ensures
        eq_is_specified::<MortonCode<u64>, u64>(),
        equal(MortonCode(a), b) <==> a == b,
{
}

/// A 32-bit Morton code is ordered against a plain integer as its value is:
/// less, equal or greater exactly when the value is.
pub proof fn lemma_code_order_u32(a: u32, b: u32)
    ensures
        order_is_specified::<MortonCode<u32>, u32>(),
        compared(MortonCode(a), b) == Some(Ordering::Less) <==> a < b,
        compared(MortonCode(a), b) == Some(Ordering::Equal) <==> a == b,
        compared(MortonCode(a), b) == Some(Ordering::Greater) <==> a > b,
{
}

/// A 64-bit Morton code is ordered against a plain integer as its value is:
/// less, equal or greater exactly when the value is.
pub proof fn lemma_code_order_u64(a: u64, b: u64)
    ensures
        order_is_specified::<MortonCode<u64>, u64>(),
        compared(MortonCode(a), b) == Some(Ordering::Less) <==> a < b,
        compared(MortonCode(a), b) == Some(Ordering::Equal) <==> a == b,
        compared(MortonCode(a), b) == Some(Ordering::Greater) <==> a > b,
{
}

/// Two primitives are equal exactly when their Morton codes are, whatever their
/// indices.
pub proof fn lemma_primitive_eq(p: MortonPrimitive, q: MortonPrimitive)
    ensures
        eq_is_specified::<MortonPrimitive, MortonPrimitive>(),
        equal(p, q) <==> p.code() == q.code(),
{
}

/// Primitives are ordered as their Morton codes are.
pub proof fn lemma_primitive_order(p: MortonPrimitive, q: MortonPrimitive)
    ensures
        order_is_specified::<MortonPrimitive, MortonPrimitive>(),
        compared(p, q) == Some(Ordering::Less) <==> p.code() < q.code(),
        compared(p, q) == Some(Ordering::Equal) <==> p.code() == q.code(),
        compared(p, q) == Some(Ordering::Greater) <==> p.code() > q.code(),
{
}

} // verus!
