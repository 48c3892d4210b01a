//! Work spread over threads.

use rayon::iter::{IntoParallelIterator, ParallelIterator};
use vstd::prelude::*;

verus! {

/// `rayon`'s `into_par_iter().map(f).collect()` over `0..n`. The results come
/// in the order of the indices, each from one call of `f` on its index,
/// whatever the threads did.
#[verifier::external_body]
pub(crate) fn parallel_map<R: Send, F: Fn(usize) -> R + Sync + Send>(n: usize, f: F) -> (r: Vec<R>)
    requires
        forall|i: usize| i < n ==> call_requires(f, (i,)),
    ensures
        r@.len() == n,
        forall|i: usize| i < n ==> call_ensures(f, (i,), #[trigger] r@[i as int]),
{
    (0..n).into_par_iter().map(f).collect()
}

} // verus!
