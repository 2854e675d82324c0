//! Core logic of `shutri`, a text-based audio editor: consolidating
//! under-length audio splits, grouping transcribed clips into bounded
//! display chunks, and rendering timestamped project documents.

pub mod audio;
pub mod cli;
pub mod numerals;
pub mod project;
pub mod transcription;
