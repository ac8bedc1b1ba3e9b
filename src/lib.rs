//! Catspeak: lowercase English text and raw bytes written as cat sounds, in
//! any base up to the number of sounds, and read back.
//!
//! [`numeral`] holds the positional codec for one value, [`anybase`] and its
//! `bytes` submodule the text and byte streams, [`base4`] and [`bytes`] the
//! base 4 presets, [`model`] the mathematical meaning of every result, and
//! [`laws`] what is proved to hold across calls.
pub mod error;
mod strings;
pub mod model;
pub mod numeral;
pub mod anybase;
pub mod base4;
pub mod bytes;
pub mod laws;
mod lemmas;
