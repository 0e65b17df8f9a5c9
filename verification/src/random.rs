//! The random source. The generator is opaque to the proofs: of a draw only
//! its range is known, and two draws need not agree.

use rand::rngs::StdRng;
use rand::seq::SliceRandom;
use rand::Rng;
use rand::SeedableRng;
use vstd::prelude::*;

verus! {

/// The generator of `rand`, carried through as an opaque value.
#[verifier::external_type_specification]
#[verifier::external_body]
pub struct ExStdRng(rand::rngs::StdRng);

/// `rand::SeedableRng::from_entropy` for `StdRng`: a generator seeded from
/// the operating system. Nothing is claimed of its state. The call panics
/// when the operating system cannot supply a seed.
#[verifier::external_body]
pub(crate) fn entropy_rng() -> StdRng {
    StdRng::from_entropy()
}

/// `rand::Rng::gen_range` on the inclusive range `low..=high`, which must
/// not be empty: the number drawn lies in the range. Which number comes is
/// left open.
#[verifier::external_body]
pub(crate) fn draw_between(rng: &mut StdRng, low: i32, high: i32) -> (n: i32)
    requires
        low <= high,
    ensures
        low <= n <= high,
{
    rng.gen_range(low..=high)
}

/// `rand::seq::SliceRandom::choose` on the slice of `words`: `None` exactly
/// when there is no word, else one of the words. Which one comes is left
/// open.
#[verifier::external_body]
pub(crate) fn choose_word<'a>(words: &'a Vec<String>, rng: &mut StdRng) -> (choice: Option<
    &'a String,
>)
    ensures
        choice is None <==> words.len() == 0,
        choice matches Some(word) ==> exists|i: int|
            0 <= i < words.len() && #[trigger] words[i]@ == word@,
{
    words.choose(rng)
}

} // verus!
