//! The calls into the `rand` crate. Their contracts are trusted, not proved.

use vstd::prelude::*;
use rand::seq::IteratorRandom;
use rand::Rng;
use crate::colour::Color;

verus! {

/// `pick` lists, for each colour of `sample`, a position of `population`
/// that holds it, and lists no position twice.
pub open spec fn picks_sample(population: Seq<Color>, sample: Seq<Color>, pick: Seq<int>) -> bool {
    &&& pick.len() == sample.len()
    &&& forall|i: int|
        0 <= i < pick.len() ==> 0 <= #[trigger] pick[i] < population.len() && sample[i]
            == population[pick[i]]
    &&& forall|i: int, j: int|
        0 <= i < j < pick.len() ==> #[trigger] pick[i] != #[trigger] pick[j]
}

/// `sample` was drawn from `population` without replacement: its colours
/// stand at distinct positions of the population.
pub open spec fn drawn_from(population: Seq<Color>, sample: Seq<Color>) -> bool {
    exists|pick: Seq<int>| #[trigger] picks_sample(population, sample, pick)
}

/// Draws `amount` colours from `colors` with `IteratorRandom::choose_multiple`
/// of the `rand` crate, on the thread-local generator.
///
/// Trusted: the sample has `amount` colours; they stand at distinct
/// positions of `colors`; and when `amount` is the whole length the sample
/// is `colors` itself, in order. Which positions are drawn is left open.
/// The call allocates room for `amount` items up front, hence the bound.
#[verifier::external_body]
pub(crate) fn choose_multiple(colors: &Vec<Color>, amount: usize) -> (sample: Vec<Color>)
    requires
        amount <= colors@.len(),
    ensures
        sample@.len() == amount,
        drawn_from(colors@, sample@),
        amount == colors@.len() ==> sample@ == colors@,
{
    let mut rng = rand::thread_rng();
    colors.iter().choose_multiple(&mut rng, amount).into_iter().cloned().collect()
}

/// Draws a byte from the half-open range `low..high` with `Rng::gen_range`
/// of the `rand` crate, on the thread-local generator.
///
/// Trusted: the byte lies in the range. The call panics on an empty range,
/// which the precondition excludes.
#[verifier::external_body]
pub(crate) fn random_in_range(low: u8, high: u8) -> (value: u8)
    requires
        low < high,
    ensures
        low <= value < high,
{
    rand::thread_rng().gen_range(low..high)
}

/// Draws a byte with `Rng::gen` of the `rand` crate, on the thread-local
/// generator. Nothing is claimed of the byte.
#[verifier::external_body]
pub(crate) fn random_byte() -> (value: u8) {
    rand::thread_rng().gen()
}

} // verus!
