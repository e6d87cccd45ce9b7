//! A small spelling corrector: the edit distance between two words, and the
//! dictionary entries closest to a word.
//!
//! Words are compared byte by byte, and every function is pure.
//!
//! - [`distance`]: the edit distance and the function that computes it.
//! - [`edits`]: the distance as the least number of single-byte edits.
//! - [`order`]: positions in stable ascending order of their keys.
//! - [`ranker`]: the entries of a dictionary closest to a word.

pub mod distance;
pub mod edits;
pub mod order;
pub mod ranker;

pub use distance::wagner_fischer;
pub use ranker::{assess, spell_check, Verdict, SUGGESTION_LIMIT};
