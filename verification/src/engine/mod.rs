//! Structured diffusion reads and bounded generation over any diffusion model.
pub mod answer;
pub mod config;
pub mod model;
pub mod chunks;
pub mod sampler;
pub mod generated;
pub mod causal;
pub mod masked;
pub mod unmasking;
pub mod uniform;
pub mod stream;
pub mod framing;
pub mod prompts;
pub mod engine;
pub mod generations;
pub mod codes;
pub mod reads;
pub mod slots;
pub mod board;
pub mod canvases;
pub mod committing;
pub mod noise;
pub mod read;
pub mod repeats;
pub mod readings;
