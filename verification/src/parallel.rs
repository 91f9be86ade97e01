//! Work handed out to threads.
use rayon::iter::{IntoParallelRefIterator, ParallelIterator};
use vstd::prelude::*;

verus! {

/// Applies `f` to each item, on as many threads as there are.
///
/// This hands the items to `rayon`: `par_iter`, `ParallelIterator::map` and
/// `ParallelIterator::collect`. What is claimed of it is what its documentation says
/// of an indexed source: `map` calls the function once for each item, and `collect`
/// puts the results into a vector in the order of the items, whatever thread finished
/// first.
#[verifier::external_body]
pub(crate) fn par_map<T: Sync, R: Send, F: Fn(&T) -> R + Sync + Send>(items: &Vec<T>, f: F) -> (out:
    Vec<R>)
    requires
        forall|i: int| 0 <= i < items@.len() ==> call_requires(f, (&#[trigger] items@[i],)),
    ensures
        out@.len() == items@.len(),
        forall|i: int|
            0 <= i < out@.len() ==> call_ensures(f, (&items@[i],), #[trigger] out@[i]),
{
    items.par_iter().map(f).collect()
}

} // verus!
