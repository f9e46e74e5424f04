//! The game itself: board engine, room lifecycle, session rules.

pub mod board;
pub mod game;
pub mod registry;
pub mod room;
pub mod rules;
pub mod session;
