//! The worker pool: the two places where the library hands work to rayon.
//!
//! Nothing here is proved. Each item states what the rest of the library
//! relies on, and the rest is proved from that.

use rayon::iter::IntoParallelRefIterator;
use rayon::iter::ParallelIterator;
use vstd::prelude::*;

verus! {

/// `rayon::current_num_threads`: the size of the pool that runs parallel work
/// for the calling thread.
///
/// The number depends on how the pool was built and on the machine, so the
/// contract says only what holds of every pool: rayon never builds one
/// without a thread.
pub assume_specification[ rayon::current_num_threads ]() -> (workers: usize)
    ensures
        workers >= 1,
;

/// `par_iter().map(f).collect()` of rayon into a `Vec`: applies `f` to every
/// item on the worker pool and gathers the results in the order of the items.
///
/// The contract claims that there is exactly one result for each item, at the
/// item's position, and that it is a value that `f` returns for that item.
/// Which worker computes which item, and when, is rayon's business.
#[verifier::external_body]
pub(crate) fn par_map<T: Sync, U: Send, F: Fn(&T) -> U + Sync + Send>(items: &Vec<T>, f: F) -> (out:
    Vec<U>)
    requires
        forall|i: int| 0 <= i < items@.len() ==> call_requires(f, (&#[trigger] items@[i],)),
    ensures
        out@.len() == items@.len(),
        forall|i: int| 0 <= i < items@.len() ==> call_ensures(f, (&items@[i],), #[trigger] out@[i]),
{
    items.par_iter().map(f).collect()
}

} // verus!
