//! Transcription of recordings: words, segments, and overlapping windows for audio longer than one
//! model pass. Times are counted in samples.
pub mod laws;
pub mod segments;
pub mod transcriber;
pub mod words;
