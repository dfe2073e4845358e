//! Validated safetensors reader for single-file and sharded Hugging Face checkpoints.
//!
//! Headers are parsed up front; tensor bytes are read on demand with positional reads, so a
//! loader can stream one tensor at a time to the device without mapping whole shards.
pub mod header;
pub mod checkpoint;
pub mod index;
pub mod laws;
