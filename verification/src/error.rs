//! Why a sentence could not be generated.

use vstd::prelude::*;

verus! {

/// The reasons for which a random walk yields no sentence.
#[derive(Clone, Copy, Debug, PartialEq, Eq, Structural)]
pub enum GenerationError {
    /// The graph holds no word that may open a sentence.
    NoEntryWords,
    /// The walk reached a word that closes no sentence and has no successor.
    DeadEnd,
    /// The walk has taken the largest number of steps allowed, its last word
    /// closes no sentence, and it could go on.
    TooLong,
}

} // verus!
