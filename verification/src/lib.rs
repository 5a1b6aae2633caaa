//! Skanda: a retrieval engine over plain-text corpora.
//!
//! `pfr` holds the first engine (bit-set proximity scoring over the blocks that
//! hold every query word);
//! `skanda` holds the current one (positional postings, BK-tree fuzzy vocabulary,
//! phrase and proximity scoring).
pub mod pfr;
pub mod skanda;
pub mod text;
