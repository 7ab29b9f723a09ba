//! Git pack-style binary deltas: instructions, their byte encoding, the
//! generator that turns an edit script into instructions, and a decoder.

pub mod buffer;
pub mod decoder;
pub mod diff_engine;
pub mod generator;
pub mod instruction;
pub mod laws;
pub mod size_codec;
