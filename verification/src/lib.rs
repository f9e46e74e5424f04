//! Multiplayer Minesweeper: the board engine, the room lifecycle and the
//! session rules of a game server, with every operation specified and proved.

pub mod logic;
pub mod utils;
