//! Minimal validated GGUF v2/v3 reader: metadata, tensor directory, and bounded tensor reads.
//!
//! Only the value and tensor types used by DiffusionGemma checkpoints are interpreted; every
//! other tensor type is rejected when its data is requested rather than guessed.
pub mod file;
pub mod format;
pub mod reader;
pub mod value;
pub mod laws;
pub mod written;
