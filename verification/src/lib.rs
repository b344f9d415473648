//! Builds the deduplicated shape of a nested open/close tag stream: a tree
//! that records, at every nesting level, the set of distinct tag names seen
//! there, with repeated sibling names collapsed into one node.
//!
//! The mathematical value of a tree is its set of name paths; the builder is
//! verified against a small position machine over that model, and the
//! machine's laws (dedup, depth tracking, order independence, robustness to
//! stray closes) are proved in `laws`.

pub mod adapter;
pub mod builder;
pub mod events;
pub mod laws;
pub mod model;
pub mod tree;
