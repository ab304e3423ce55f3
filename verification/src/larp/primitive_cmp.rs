use vstd::prelude::*;

verus! {

use core::cmp::Ordering;
use vstd::std_specs::cmp::{PartialEqSpecImpl, PartialOrdSpecImpl};
use crate::larp::lbvh::MortonPrimitive;
use crate::math::morton_cmp::order_u32;

/// Two primitives are equal when their Morton codes are: the primitive index
/// plays no part in the comparison.
impl PartialEq for MortonPrimitive {
    fn eq(&self, other: &Self) -> (r: bool) {
        self.code_value() == other.code_value()
    }
}

impl PartialEqSpecImpl for MortonPrimitive {
    open spec fn obeys_eq_spec() -> bool {
        true
    }

    open spec fn eq_spec(&self, other: &Self) -> bool {
        self.code() == other.code()
    }
}

/// Primitives are ordered by their Morton codes alone.
impl PartialOrd for MortonPrimitive {
    fn partial_cmp(&self, other: &Self) -> (r: Option<Ordering>) {
        let a = self.code_value();
        let b = other.code_value();
        if a < b {
            Some(Ordering::Less)
        } else if a == b {
            Some(Ordering::Equal)
        } else {
            Some(Ordering::Greater)
        }
    }
}

impl PartialOrdSpecImpl for MortonPrimitive {
    open spec fn obeys_partial_cmp_spec() -> bool {
        true
    }

    open spec fn partial_cmp_spec(&self, other: &Self) -> Option<Ordering> {
        order_u32(self.code(), other.code())
    }
}

} // verus!
