//! Strategies that play the game.

mod naive;

pub use naive::{is_favourite, lemma_favourite_unique, precedes, preferred, Naive};
