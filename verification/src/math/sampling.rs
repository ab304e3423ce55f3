use vstd::prelude::*;

verus! {

/// Shapes whose surface can be sampled: a point on the surface and the normal
/// there, as vectors of type `V`.
pub trait SurfaceSampleable<V> {
    fn sample(&self) -> (V, V);
}

/// Shapes whose volume can be sampled: a point inside, as a vector of type `V`.
pub trait VolumeSampleable<V> {
    fn volume_sample(&self) -> V;
}

} // verus!
