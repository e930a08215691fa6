//! Greedy segmentation of character sequences into dictionary tokens.
//!
//! A generic prefix [`trie::Trie`] maps character sequences to stored values
//! and offers exact-key lookup as well as a greedy longest-reachable-path
//! lookup. The [`segment`] module drives a single forward pass over an input,
//! repeatedly consuming the best match from the front and folding adjacent
//! failures into combined error runs. The [`elements`] module supplies the
//! motivating dictionary: chemical elements keyed by their lowercased symbol.

pub mod elements;
pub mod segment;
pub mod trie;
