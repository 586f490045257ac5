//! Work spread over threads.
use rayon::iter::{IntoParallelIterator, ParallelIterator};
use vstd::prelude::*;

verus! {

/// Calls `f` on each of `0..n`, on the threads of rayon's global pool, and
/// collects what it returned, in the order of the arguments.
///
/// This is rayon's `map` and `collect` on the parallel iterator of a range.
/// That iterator has a known length and keeps its order, so the vector holds
/// at place `i` what the one call on `i` returned.
#[verifier::external_body]
pub(crate) fn parallel_map<T: Send, F: Fn(usize) -> T + Sync + Send>(n: usize, f: F) -> (r: Vec<T>)
    requires
        forall|i: usize| i < n ==> call_requires(f, (i,)),
    ensures
        r@.len() == n,
        forall|i: int| 0 <= i < n ==> call_ensures(f, (i as usize,), #[trigger] r@[i]),
{
    (0..n).into_par_iter().map(f).collect()
}

} // verus!
