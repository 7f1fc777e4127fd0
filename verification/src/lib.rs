//! A Boggle-style word finder: a prefix trie over a normalized dictionary is
//! walked together with a square letter board to enumerate every word that can
//! be traced as a non-self-intersecting path of adjacent cells.

pub mod board;
pub mod charset;
pub mod error;
pub mod graph;
pub mod grid;
pub mod kernel;
pub mod node;
pub mod search;
pub mod simple;
pub mod trie;
