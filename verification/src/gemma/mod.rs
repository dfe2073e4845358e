//! The DiffusionGemma language model: its dimensions, its weights, and the passes over prompts
//! and canvases.
pub mod adapter;
pub mod ahead;
pub mod attention;
pub mod cells;
pub mod config;
pub mod error;
pub mod forward;
pub mod passes;
pub mod plans;
pub mod prompt;
pub mod reuse;
pub mod quants;
pub mod routing;
pub mod weights;
