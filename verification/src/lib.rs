//! Finds every set of five five-letter words that share no letter.
//!
//! Words are encoded as letter masks, a pairwise table records which word may
//! follow which, and a five-level narrowing search lists every combination.

pub mod annotate;
pub mod mask;
pub mod normalize;
pub mod search;
pub mod table;
pub mod words;
