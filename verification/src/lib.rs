//! Detection of copy-pasted code: sliding-window hashing of trimmed lines,
//! a reverse index from window digest to occurrences, and the merging of
//! matching windows into maximal duplicate regions.

pub mod candidates;
pub mod config;
pub mod index;
pub mod laws;
pub mod locality;
pub mod monotonicity;
pub mod region;
pub mod report;
pub mod seq_lemmas;
pub mod text;
