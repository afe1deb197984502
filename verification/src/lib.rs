//! Core of a single-player word-chain puzzle board.
//!
//! A grid of lettered cells is filled by a weighted-random letter generator;
//! the player selects a connected chain of adjacent cells to spell a
//! dictionary word, commits it for points, and a per-tick decay/gravity
//! animation clears the committed cells and collapses their columns.
//!
//! The crate verifies the whole board state machine: chain selection,
//! dictionary validation with phonetic substitution, scoring with bonus
//! lines, and the clear/gravity animation.

pub mod animation;
pub mod cell;
pub mod dict;
pub mod field;
pub mod gen;
pub mod grid;
pub mod laws;
pub mod settings;
