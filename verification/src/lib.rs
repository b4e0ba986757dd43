//! Board, game state and move derivation for a Settlers-of-Catan-style game.
//!
//! The crate models the fixed board topology and the per-game state, converts
//! both to and from a fixed-layout text, and derives from a game the facts a
//! player needs to pick a move: the longest road, the intersections and edges
//! that can be built on, and the purchases a stock of resources can pay for.

pub mod game;
pub mod moves;
