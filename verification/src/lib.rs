//! Finds duplicate lines and duplicate multi-line blocks in text, and rewrites
//! text so that each line is kept only where it first occurs.

pub mod blocks;
pub mod common;
pub mod counting;
pub mod occurrences;
pub mod options;
pub mod pattern;
pub mod printing;
pub mod rewrite_proofs;
pub mod search;
pub mod text;
