//! A solver for fixed-length word-guessing games.
//!
//! Given a corpus of equal-length words, the solver precomputes the feedback
//! (overlap) between every ordered pair of words, scores each candidate guess
//! by how evenly its feedback partitions the corpus, and repeatedly narrows
//! the candidate set until at most one answer remains.

pub mod matrix;
pub mod overlap;
pub mod scorer;
pub mod solver;
