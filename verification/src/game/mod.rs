//! The game model: board geometry, bitboards and the Santorini rules.
pub mod util;
pub mod packed;
pub mod santorini;
