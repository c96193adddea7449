//! Solves word-cover puzzles: given a grid of letters and a dictionary, find
//! a given number of dictionary words, each spelled along a simple path of
//! neighbouring cells, whose paths together cover every cell exactly once.

pub mod candidates;
pub mod cover;
pub mod grid;
pub mod strands;
pub mod text;
pub mod trie;

pub use crate::candidates::{Candidates, Coord};
pub use crate::strands::Strands;
pub use crate::trie::{Node, Trie};
