use vstd::prelude::*;

pub mod morton;
pub mod morton_cmp;
pub mod code_order;
pub mod radix;
pub mod sampling;

verus! {

} // verus!
