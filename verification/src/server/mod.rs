//! The server: errors as responses, settings from flags and a file, the models it serves, who may
//! use them, and the course of a generation.
pub mod access;
pub mod answers;
pub mod error;
pub mod laws;
pub mod services;
pub mod settings;
