//! Games between people and computer players: who plays, the game in progress, what a
//! player sees while entering a move, and how a player's progress changes.
pub mod game;
pub mod board_state;
pub mod tentative;
pub mod ai;
pub mod play;
pub mod event;
