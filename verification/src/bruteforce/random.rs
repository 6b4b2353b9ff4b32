//! The random choices of the puzzle creator, drawn from a generator of the
//! `rand` crate. Nothing here is proved: each contract states what the
//! documentation of `rand` promises of every outcome.

use crate::bruteforce::possible_move::PossibleMove;
use rand::rngs::StdRng;
use rand::seq::SliceRandom;
use rand::Rng;
use vstd::prelude::*;

verus! {

/// `rand::rngs::StdRng`, the generator that all random choices are drawn
/// from. Its state is opaque to the proofs.
#[verifier::external_type_specification]
#[verifier::external_body]
pub struct ExStdRng(StdRng);

/// `SliceRandom::choose` on a slice of options: nothing if the slice is
/// empty, and otherwise one of its elements, whichever the generator picks.
#[verifier::external_body]
pub(crate) fn choose_option(options: &[PossibleMove], rng: &mut StdRng) -> (chosen: Option<
    PossibleMove,
>)
    ensures
        chosen is None <==> options@.len() == 0,
        chosen matches Some(option) ==> options@.contains(option),
{
    options.choose(rng).copied()
}

/// `Rng::gen` for `bool`: either value, whichever the generator yields.
#[verifier::external_body]
pub(crate) fn flip_coin(rng: &mut StdRng) -> (heads: bool) {
    rng.gen()
}

/// `Rng::gen_range` for `usize`: a number from `low` up to, but not
/// including, `high`. The call panics unless `low < high`.
#[verifier::external_body]
pub(crate) fn random_in_range(rng: &mut StdRng, low: usize, high: usize) -> (number: usize)
    requires
        low < high,
    ensures
        low <= number < high,
{
    rng.gen_range(low, high)
}

} // verus!
