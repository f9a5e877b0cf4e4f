//! Approximate string matching: an edit-distance metric, a BK-tree that
//! indexes a vocabulary by that metric for bounded-radius correction, a
//! brute-force corrector that enumerates small edits of a word, and the
//! tokenizer that turns text into the words both correctors work on.

pub mod bktree;
pub mod count_table;
pub mod distance;
pub mod edits;
pub mod node;
pub mod text;
pub mod tokenize;
