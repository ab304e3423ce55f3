use vstd::prelude::*;

pub mod karras;
pub mod lbvh;
mod primitive_cmp;
pub mod union;

verus! {

} // verus!
