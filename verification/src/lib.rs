//! Diffusion and speech model serving: checkpoint formats, request validation, generation and
//! transcription state machines, each with a machine-checked contract.

pub mod arith;
pub mod double;
pub mod engine;
pub mod error;
pub mod formats;
pub mod gemma;
pub mod generation;
pub mod json;
pub mod kernels;
pub mod models;
pub mod nemotron;
pub mod openai;
pub mod parakeet;
pub mod realtime;
pub mod schema;
pub mod sequences;
pub mod server;
pub mod speech;
pub mod text;
