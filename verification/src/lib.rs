//! A configurable, stateful, rotor-based polyalphabetic substitution cipher
//! with an optional involutive plugboard layer.
//!
//! The engine owns an ordered chain of rotors over an `n`-symbol alphabet
//! whose first symbol has code `base`, an advance cursor that selects which
//! rotor steps next, and a plugboard table built from disjoint symbol pairs.
//! Every in-alphabet symbol is substituted through the plugboard, run through
//! the rotor chain, and advances exactly one rotor; symbols outside the
//! alphabet pass through unchanged and leave the state untouched.

pub mod arith;
pub mod engine;
pub mod errors;
pub mod model;
pub mod plugboard;

pub use engine::Enigma;
pub use errors::KeyError;
pub use plugboard::Plugboard;
