//! The keyboard input model: modifier masks, chords, chains and modes.

pub mod desc;
pub mod err;
pub mod modmask;
pub mod state;
pub mod text;
