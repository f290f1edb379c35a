//! The rules of a few small games, without their dialogue.

pub mod christmas_lyrics;
pub mod fibonacci;
pub mod guessing_game;
