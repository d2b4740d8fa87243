//! A person's client: the game it shows, and how clicks, time and the computer
//! player's reports move that game on.
pub mod santorini;
pub mod local;
