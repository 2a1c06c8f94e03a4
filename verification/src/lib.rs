//! A Wordle-solving constraint engine: indexed lookup tables built once from a
//! word list, a per-letter occurrence-bound tracker, and a two-phase filtering
//! algorithm that repeatedly narrows a candidate vocabulary from colored
//! per-position feedback.

pub mod counting;
pub mod dictionary;
pub mod engine;
pub mod feedback;
pub mod freq;
pub mod hint;
