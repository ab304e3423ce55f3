use vstd::prelude::*;

pub mod larp;
pub mod math;
mod par;

pub use larp::lbvh::{LinearBvh, LinearBvhNode, MortonPrimitive};
pub use math::morton::{MortonCode, MortonParameter};
pub use math::radix::{par_radix_sort_by_key, radix_sort_by_key, RadixSorter};
pub use math::sampling::{SurfaceSampleable, VolumeSampleable};

verus! {

} // verus!
