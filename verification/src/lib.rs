//! Verified core of a live speech-translation pipeline: the voice-activity
//! filter, the realtime transcription session bookkeeping, the translation
//! queue, the SSE stream parser and their supporting text utilities.

pub mod commands;
pub mod devices;
pub mod error;
pub mod events;
pub mod keys;
pub mod pipeline;
pub mod realtime;
pub mod state;
pub mod text;
pub mod translate;
pub mod vad;
