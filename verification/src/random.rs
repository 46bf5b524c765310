//! The random source. Everything here is taken on trust from the `rand`
//! crate: the generator itself is opaque, and a draw is known only to lie
//! in the range it was asked for.

use rand::rngs::StdRng;
use rand::seq::SliceRandom;
use rand::Rng;
use vstd::prelude::*;

verus! {

/// `rand::rngs::StdRng`, the seedable generator that drives the maze.
/// Nothing is known of its state.
#[verifier::external_type_specification]
#[verifier::external_body]
pub struct ExStdRng(StdRng);

/// Calls `Rng::gen_range(0..bound)`: a draw from the half-open range,
/// which the crate documents as lying inside the range and as panicking
/// only when the range is empty.
#[verifier::external_body]
pub(crate) fn gen_below(rng: &mut StdRng, bound: usize) -> (drawn: usize)
    requires
        bound > 0,
    ensures
        drawn < bound,
{
    rng.gen_range(0..bound)
}

/// Calls `SliceRandom::choose` on the cells: nothing for an empty slice,
/// otherwise one of its elements.
#[verifier::external_body]
pub(crate) fn choose_cell(cells: &Vec<(usize, usize)>, rng: &mut StdRng) -> (chosen: Option<
    (usize, usize),
>)
    ensures
        cells@.len() == 0 ==> chosen is None,
        cells@.len() > 0 ==> chosen is Some && cells@.contains(chosen->Some_0),
{
    cells.choose(rng).copied()
}

} // verus!
