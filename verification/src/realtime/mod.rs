//! Realtime transcription sessions: the input audio buffer, turns and items, and the words that
//! consecutive passes agree on.
pub mod agreement;
pub mod laws;
pub mod live;
