//! The ways in which a game can fail.

use vstd::prelude::*;

verus! {

/// Why a dictionary could not be loaded or a game could not go on.
///
/// None of these is transient: a caller that meets one gives up the game, or the
/// start-up, that ran into it.
#[derive(Debug, Clone, Copy, PartialEq, Eq, Structural)]
pub enum WordleError {
    /// A word that was to be scored or matched does not have exactly five letters.
    InvalidLength,
    /// A line of the dictionary is not a word, one space and a frequency.
    MalformedDictionaryEntry,
    /// A strategy was asked for a guess and has no candidate left.
    Exhausted,
    /// A strategy proposed a word that the dictionary does not hold.
    OutOfDictionary,
}

} // verus!
