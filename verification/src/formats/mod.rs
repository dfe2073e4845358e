//! Model file formats: GGUF with GGML block quantization, and Hugging Face safetensors.
pub mod bytes;
pub mod gguf;
pub mod safetensors;
