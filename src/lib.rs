//! Finds duplicate files by content: a SHA-256 engine with a full functional
//! specification, and the size / sample / digest pipeline that decides which
//! files are copies of which.

pub mod hash;
pub mod items;
