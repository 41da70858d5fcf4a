//! A prefix tree (trie) over byte sequences.
//!
//! Strings are indexed incrementally, one byte path at a time; the tree
//! answers exact-containment and longest-matched-prefix questions over
//! everything inserted so far.

pub mod node;
pub mod qtree;
