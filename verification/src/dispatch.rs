//! The choice between sequential and data-parallel execution, and the
//! data-parallel primitives themselves.
//!
//! Work on fewer than [`LOWER_PAR_BOUND`] elements runs in a plain loop; from
//! that size on it is handed to `rayon`'s fork-join pool. Either way the call
//! returns only when every element has been handled, and results are placed by
//! index, never by the order in which workers finish.

use rayon::iter::{IntoParallelIterator, IntoParallelRefIterator, ParallelIterator};
use vstd::prelude::*;
use crate::bits::{is_present, present};

verus! {

/// The element count from which work is done in parallel.
pub const LOWER_PAR_BOUND: usize = 8192;

/// How a piece of element-wise work is carried out.
#[derive(Clone, Copy, Debug, PartialEq, Eq, Structural)]
pub enum Strategy {
    Sequential,
    Parallel,
}

/// The strategy for `size` elements: it depends on nothing else.
pub open spec fn strategy_for(size: nat) -> Strategy {
    if size < LOWER_PAR_BOUND {
        Strategy::Sequential
    } else {
        Strategy::Parallel
    }
}

/// Picks the strategy for `size` elements.
pub fn select(size: usize) -> (s: Strategy)
    ensures
        s == strategy_for(size as nat),
{
    if size < LOWER_PAR_BOUND {
        Strategy::Sequential
    } else {
        Strategy::Parallel
    }
}

/// The element of `s` at position `i`.
pub open spec fn nth<T>(s: Seq<T>, i: usize) -> T {
    s[i as int]
}

/// `rayon`'s `(0..n).into_par_iter().map(f).collect()` into a vector: the
/// result has `n` entries, and entry `i` is what `f` returned for `i`.
#[verifier::external_body]
pub(crate) fn par_tabulate<U: Send, F: Fn(usize) -> U + Sync + Send>(n: usize, f: F) -> (r: Vec<U>)
    requires
        forall|i: usize| i < n ==> call_requires(f, (i,)),
    ensures
        r@.len() == n,
        forall|i: usize| i < n ==> call_ensures(f, (i,), #[trigger] r@[i as int]),
{
    (0..n).into_par_iter().map(f).collect()
}

/// `rayon`'s `par_iter().filter(..).collect()` with [`is_present`] as the
/// test: the result holds the present values of `v`, in the order they have
/// in `v`.
#[verifier::external_body]
pub(crate) fn par_drop_missing(v: &Vec<u64>) -> (r: Vec<u64>)
    ensures
        r@ == v@.filter(present()),
{
    v.par_iter().copied().filter(|b| is_present(*b)).collect()
}

/// `rayon`'s `par_iter().any(..)`: true only if `pred` returned true for some
/// element, false only if it returned false for every element.
#[verifier::external_body]
pub(crate) fn par_any<F: Fn(u64) -> bool + Sync + Send>(v: &Vec<u64>, pred: F) -> (r: bool)
    requires
        forall|i: int| 0 <= i < v@.len() ==> call_requires(pred, (#[trigger] v@[i],)),
    ensures
        r ==> exists|i: int| 0 <= i < v@.len() && call_ensures(pred, (#[trigger] v@[i],), true),
        !r ==> forall|i: int| 0 <= i < v@.len() ==> call_ensures(pred, (#[trigger] v@[i],), false),
{
    v.par_iter().copied().any(pred)
}

} // verus!
