use vstd::prelude::*;
use rayon::iter::{IntoParallelIterator, ParallelIterator};

verus! {

/// `[g(0), g(1), ..., g(n - 1)]`, computed in parallel by rayon: an indexed
/// parallel map over `0..n`, collected into a vector in index order. The contract
/// claims what rayon documents of `into_par_iter().map(g).collect()` on a range:
/// one call of `g` per index, each result at its own index.
#[verifier::external_body]
pub(crate) fn par_map_indices<T: Send, G: Fn(usize) -> T + Sync + Send>(n: usize, g: G) -> (r: Vec<T>)
    requires
        forall|i: usize| i < n ==> #[trigger] call_requires(g, (i,)),
    ensures
        r.len() == n,
        forall|i: int| 0 <= i < n ==> call_ensures(g, (i as usize,), #[trigger] r@[i]),
{
    (0..n).into_par_iter().map(g).collect()
}

} // verus!
