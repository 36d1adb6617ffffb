//! Handing independent items to all cores.
use vstd::prelude::*;
use rayon::iter::{IntoParallelIterator, ParallelIterator};
use vstd::layout::size_of;

verus! {

/// A vector can hold `n` entries: their bytes can be counted in an `isize`.
pub open spec fn collectable<T>(n: nat) -> bool {
    n * size_of::<T>() <= isize::MAX
}

/// Calls `f` on `0..n` and collects the answers in the order of the arguments.
///
/// The work is done by rayon: `into_par_iter` on a range of `usize` is an indexed
/// parallel iterator, `map` applies `f` to each index, and `collect` into a vector
/// keeps the order. What is relied on: the vector has one entry for each index, and
/// the entry at `i` is an answer of `f` to `i`. More entries than a vector can hold
/// cannot be collected.
#[verifier::external_body]
pub(crate) fn map_indices<T: Send, F: Fn(usize) -> T + Sync + Send>(n: usize, f: F) -> (r: Vec<T>)
    requires
        collectable::<T>(n as nat),
        forall|i: usize| i < n ==> #[trigger] call_requires(f, (i,)),
    ensures
        r@.len() == n,
        forall|i: int| 0 <= i < n ==> call_ensures(f, (i as usize,), #[trigger] r@[i]),
{
    (0..n).into_par_iter().map(f).collect()
}

} // verus!
