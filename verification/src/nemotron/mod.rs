//! Nemotron-Labs-Diffusion: configuration, prompt planning and image layout.
pub mod adapter;
pub mod config;
pub mod frame;
pub mod grids;
pub mod image;
pub mod load;
pub mod prompt;
pub mod reuse;
pub mod rows;
