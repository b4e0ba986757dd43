//! The board, the state of a game, the resource stocks and the text codec.

pub mod board;
pub mod encoding;
pub mod resources;
pub mod round_trip;
pub mod standard;
pub mod text;
