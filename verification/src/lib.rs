//! Verified logic of a grid snake game with a two-player network mode: room codes
//! that carry an IPv4 address, the playing field, the messages the players exchange,
//! and the game's frame-by-frame decisions.
pub mod decimal;
pub mod game;
pub mod grid;
pub mod protocol;
pub mod room_code;
pub mod text;
