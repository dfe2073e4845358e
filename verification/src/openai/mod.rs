//! The OpenAI-compatible wire contracts: Chat Completions, Completions and Responses.
//!
//! Requests are validated into a [`crate::generation::GenerationRequest`]; parameters that
//! would change the answer's meaning but are not implemented (tools, several choices, log
//! probabilities, structured output) are rejected rather than ignored. Sampling parameters are
//! accepted for client compatibility, but decoding is greedy.
pub mod asked;
pub mod error;
pub mod fields;
pub mod messages;
pub mod request;
pub mod laws;
