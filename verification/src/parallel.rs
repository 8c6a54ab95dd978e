//! Work handed out over a range of indices.

use rayon::iter::{IntoParallelIterator, ParallelIterator};
use vstd::prelude::*;

verus! {

/// Rayon's `into_par_iter`, `map` and `collect` on a range: the closure runs
/// once for every index, and its results are collected in the order of the
/// indices.
#[verifier::external_body]
pub(crate) fn par_map_range<T: Send, G: Fn(usize) -> T + Sync + Send>(n: usize, work: &G) -> (r: Vec<
    T,
>)
    requires
        forall|i: usize| i < n ==> call_requires(*work, (i,)),
    ensures
        r@.len() == n,
        forall|i: usize| i < n ==> call_ensures(*work, (i,), #[trigger] r@[i as int]),
{
    (0..n).into_par_iter().map(|i| work(i)).collect()
}

} // verus!
