//! A spell-checking library: a verified Levenshtein edit-distance engine, a
//! trie index over a dictionary word list, and a checker that reports, for
//! each input word, either `Correct` or the closest dictionary word with its
//! distance.

pub mod checker;
pub mod edit_distance;
pub mod text;
pub mod trie;
