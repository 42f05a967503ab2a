//! Random picks, taken from the `rand` crate.

use rand::seq::SliceRandom;
use rand::Rng;
use vstd::prelude::*;

verus! {

/// Calls `SliceRandom::choose` on the slice with `rand::thread_rng()`.
/// Claimed, as `rand` documents and its source shows: `None` exactly when the
/// slice is empty, and otherwise a reference to one of its entries. Which
/// entry comes out is left open (it is random).
#[verifier::external_body]
pub(crate) fn pick_any<'a, A>(items: &'a [A]) -> (r: Option<&'a A>)
    ensures
        r is None <==> items@.len() == 0,
        r matches Some(x) ==> items@.contains(*x),
{
    items.choose(&mut rand::thread_rng())
}

/// Calls `Rng::gen_range(0, bound)` on `rand::thread_rng()`, which panics on
/// an empty range, hence the `requires`. Claimed: the result lies in
/// `0..bound`; which value comes out is left open (it is random).
#[verifier::external_body]
pub(crate) fn below(bound: usize) -> (r: usize)
    requires
        bound > 0,
    ensures
        r < bound,
{
    rand::thread_rng().gen_range(0, bound)
}

} // verus!
