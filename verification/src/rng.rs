//! Random choices, drawn from the thread-local generator of the `rand`
//! crate. Nothing is promised of which value comes out beyond what holds
//! of every outcome.

use rand::seq::SliceRandom;
use rand::Rng;
use vstd::prelude::*;

verus! {

/// Calls `SliceRandom::choose` on the slice with `rand::thread_rng()`.
/// Claimed: `None` exactly when the slice is empty, otherwise one of its
/// elements. Which element is left open.
#[verifier::external_body]
pub(crate) fn choose_cell(cells: &Vec<(usize, usize)>) -> (picked: Option<(usize, usize)>)
    ensures
        picked is None <==> cells@.len() == 0,
        picked matches Some(c) ==> cells@.contains(c),
{
    cells.as_slice().choose(&mut rand::thread_rng()).copied()
}

/// Calls `Rng::gen_range(lo..hi)` on `rand::thread_rng()`, which panics on
/// an empty range. Claimed: the value lies in `lo..hi`; which one is left
/// open.
#[verifier::external_body]
pub(crate) fn random_u32_in(lo: u32, hi: u32) -> (v: u32)
    requires
        lo < hi,
    ensures
        lo <= v < hi,
{
    rand::thread_rng().gen_range(lo..hi)
}

/// Calls `Rng::gen_ratio(numerator, denominator)` on `rand::thread_rng()`,
/// which panics when the denominator is zero or below the numerator.
/// Claimed, as its documentation states: `false` for a zero numerator and
/// `true` when numerator and denominator are equal; otherwise left open.
#[verifier::external_body]
pub(crate) fn random_ratio(numerator: u32, denominator: u32) -> (b: bool)
    requires
        0 < denominator,
        numerator <= denominator,
    ensures
        numerator == 0 ==> !b,
        numerator == denominator ==> b,
{
    rand::thread_rng().gen_ratio(numerator, denominator)
}

} // verus!
