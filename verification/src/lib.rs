//! A word-guessing puzzle engine: per-letter feedback for a guess against a
//! hidden answer, constraints accumulated from that feedback, the candidate
//! words a solver may still draw from, and the game session that ties them
//! together.

pub mod count;
pub mod text;
pub mod feedback;
pub mod constraints;
pub mod filter;
pub mod puzzle;
pub mod solver;
