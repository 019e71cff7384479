use vstd::prelude::*;

verus! {

/// Number of letters in every word of the puzzle.
pub const WORD_LENGTH: usize = 5;

/// Number of guesses a player has for one puzzle.
pub const MAX_GUESSES: usize = 6;

/// Number of entries kept on the leaderboard.
pub const HIGH_SCORE_CAPACITY: usize = 5;

} // verus!
