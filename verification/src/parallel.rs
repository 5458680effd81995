//! Data-parallel mapping over a vector.

use rayon::iter::{IntoParallelRefIterator, ParallelIterator};
use vstd::prelude::*;

verus! {

/// Applies `f` to every item, on rayon's thread pool, and gathers the results.
///
/// Trusted: rayon's `par_iter().map(f).collect()` into a `Vec`. The contract
/// claims that the call hands each item to `f` (so `f` has to accept them
/// all) and that the vector it returns has one result per item, at the item's
/// own index.
#[verifier::external_body]
pub(crate) fn par_map<T: Sync, U: Send, F: Fn(&T) -> U + Sync + Send>(items: &Vec<T>, f: F) -> (out: Vec<U>)
    requires
        forall|i: int| 0 <= i < items.len() ==> call_requires(f, (&#[trigger] items[i],)),
    ensures
        out.len() == items.len(),
        forall|i: int| 0 <= i < items.len() ==> call_ensures(f, (&items[i],), #[trigger] out[i]),
{
    items.par_iter().map(f).collect()
}

} // verus!
