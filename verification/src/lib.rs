//! A word-guessing game on words of five letters, and what it takes to play it well.
//!
//! In each round a strategy proposes a word. The game scores it against a hidden answer
//! with one mark for each letter: the letter is in its place, it belongs elsewhere, or
//! the answer has no use for it. From the marks earned so far the strategy works out
//! which words of the dictionary can still be the answer.
//!
//! - [`correctness`] defines the marks and scores a guess against an answer.
//! - [`guess`] holds a round as a strategy sees it, tests whether a candidate fits a
//!   round, and defines what a strategy is.
//! - [`dictionary`] reads the text form of a dictionary.
//! - [`pool`] keeps the candidates of one game and prunes them round by round.
//! - [`algorithms`] holds the baseline strategy, which proposes the most frequent
//!   candidate.
//! - [`wordle`] plays a game: it asks a strategy for words until the answer is found or
//!   the rounds are used up.
//!
//! Every function states what it returns over plain mathematical values: a word is a
//! sequence of letters, a mask a sequence of marks, a pool a sequence of words with
//! their weights. The statements are proved for every input that they admit.

pub mod algorithms;
pub mod correctness;
pub mod dictionary;
pub mod error;
pub mod guess;
pub mod pool;
pub mod wordle;

pub use correctness::Correctness;
pub use error::WordleError;
pub use guess::{Guess, Guesser};
pub use wordle::Wordle;
