//! Records of finished Avalon games and the win/loss standings derived from them.
pub mod game;
pub mod standings;
pub mod text;
pub mod types;
