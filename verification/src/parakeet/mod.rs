//! Parakeet TDT speech recognition: configuration, encoder layout and greedy token-and-duration
//! decoding.
pub mod config;
pub mod decoder;
pub mod encoder;
pub mod weights;
