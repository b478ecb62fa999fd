//! A Go board engine with incremental string bookkeeping, and a
//! Monte-Carlo tree search on top of it.
//!
//! The board keeps for every string of stones three counters over its
//! pseudo-liberties, from which the test for a single liberty is made in
//! constant time. What a position is and how a move changes it is stated
//! in `position`; `board` holds the executable game and proves that it
//! follows these rules and keeps its cached values in step. The search in
//! `mcts` grows a tree of positions, walks it by urgency, plays random
//! games from its leaves and counts their results.

pub mod stone;
pub mod vertex;
pub mod text;
pub mod string;

pub mod position;
pub mod rules;
pub mod sums;
pub mod counting;
pub mod coherence;
pub mod chains;
pub mod alive;
pub mod captures;
pub mod components;
pub mod laws;

pub mod rng;
pub mod board;
pub mod zobrist;
pub mod mcts;
