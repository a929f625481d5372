//! A verified solver core for a fixed-length word-guessing game.
//!
//! The crate scores a guess against an answer with the game's feedback rule,
//! caches all scores for a pool of guesses and a pool of answers, groups
//! candidate answers into buckets by feedback code, ranks guesses by their
//! worst-case bucket size, and decides whether a candidate set can be
//! uniquely identified within a given guess budget.

pub mod score;
pub mod scorer;
pub mod search;
pub mod rank;
pub mod greedy;
