//! Facts derived from a game that a player needs to choose a move.

pub mod chain;
pub mod longest_path;
pub mod paths;
pub mod possible_moves;
pub mod road_length;
pub mod search;
