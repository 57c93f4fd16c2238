//! The one place where work is handed to a pool of worker threads.

use rayon::iter::{IntoParallelRefIterator, ParallelIterator};
use vstd::prelude::*;

verus! {

/// Applies `f` to every item of `items`, on the worker threads of `rayon`,
/// and collects the results in the order of the items.
///
/// This is `rayon`'s `par_iter().map(f).collect()` on the items of a
/// vector: a parallel iterator of known length, whose results `collect`
/// writes to the places of their items. Not proved: that the result has one
/// entry per item, and that the entry at each position is what `f` returned
/// for the item at that position. Nothing is said about the order in which
/// the calls are made, nor about the threads that make them.
#[verifier::external_body]
pub(crate) fn par_map<T: Sync, U: Send, F: Fn(&T) -> U + Sync + Send>(items: &Vec<T>, f: F) -> (out:
    Vec<U>)
    requires
        forall|i: int| 0 <= i < items@.len() ==> call_requires(f, (&#[trigger] items@[i],)),
    ensures
        out@.len() == items@.len(),
        forall|i: int| 0 <= i < items@.len() ==> call_ensures(f, (&items@[i],), #[trigger] out@[i]),
{
    items.par_iter().map(f).collect()
}

} // verus!
