//! A persistent prefetch cache: a sorted, line-oriented index mapping source
//! locators to content digests and artifact paths.
//!
//! The library works on plain byte buffers; reading and writing the backing
//! file, and the atomic temp-file/rename dance, are left to the embedding
//! program.

pub mod order;
pub mod line;
pub mod cache;
pub mod laws;
