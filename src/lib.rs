//! A word-guessing puzzle library: letter-by-letter scoring of guesses,
//! a word store with membership queries, and a bounded leaderboard with its
//! stored text format.
pub mod constants;
pub mod display;
pub mod err;
pub mod guess_processor;
pub mod text;
pub mod wordbank;
pub mod highscore;
pub mod records;
pub mod user_input;
