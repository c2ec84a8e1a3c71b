//! Key-validation errors.
//!
//! Every variant is detected while an engine is being constructed; no partial
//! engine is ever produced. Out-of-alphabet symbols in a message are not an
//! error: they pass through the engine unchanged.

use vstd::prelude::*;

verus! {

/// Why a key was rejected at engine construction.
#[derive(Clone, Copy, Debug, PartialEq, Eq, Structural)]
pub enum KeyError {
    /// The alphabet is empty or its code range does not fit in a byte.
    InvalidAlphabet,
    /// The key names no rotors at all.
    NoRotors,
    /// An initial rotor offset lies outside `[0, n)`.
    OffsetOutOfRange { index: usize, offset: usize },
    /// A plugboard pair names a symbol outside the alphabet.
    PlugSymbolOutOfRange { index: usize, symbol: u8 },
    /// A plugboard symbol appears in two pairs, or is paired with itself.
    PlugSymbolReused { index: usize, symbol: u8 },
}

impl KeyError {
    /// A short human-readable description of the error.
    pub fn describe(&self) -> (r: &'static str)
        ensures
            r@.len() > 0,
    {
        let r = match self {
            KeyError::InvalidAlphabet => "alphabet is empty or exceeds the byte range",
            KeyError::NoRotors => "key names no rotors",
            KeyError::OffsetOutOfRange { .. } => "initial rotor offset is out of range",
            KeyError::PlugSymbolOutOfRange { .. } => "plugboard symbol is out of range",
            KeyError::PlugSymbolReused { .. } => "plugboard symbol appears twice",
        };
        proof {
            reveal_strlit("alphabet is empty or exceeds the byte range");
            reveal_strlit("key names no rotors");
            reveal_strlit("initial rotor offset is out of range");
            reveal_strlit("plugboard symbol is out of range");
            reveal_strlit("plugboard symbol appears twice");
        }
        r
    }
}

} // verus!
