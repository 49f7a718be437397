//! Monte-Carlo tree search for two-player, zero-sum board games.
//!
//! `mcts` holds the search tree and the game interface it is written against;
//! `board` and `connect4` are two games that satisfy that interface, and
//! `play` lets two searching players meet.

pub mod board;
pub mod connect4;
pub mod listing;
pub mod mcts;
pub mod notation;
pub mod play;
pub mod random;
