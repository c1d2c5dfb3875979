//! What can go wrong while a key binding configuration is read.

use vstd::prelude::*;

verus! {

/// An error of the keyboard configuration.
#[derive(Debug)]
pub enum KbdError {
    /// The text names no chord: it holds no keysym.
    InvalidChord(String),
    /// The value of the named binding has the wrong type; the flag says
    /// whether a string was expected.
    KeyTypeMismatch(String, bool),
}

/// A result of reading the keyboard configuration.
pub type KbdResult<T> = Result<T, KbdError>;

} // verus!
