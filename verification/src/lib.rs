//! Cleans a shell history file: parses timestamp-prefixed entries, drops
//! noisy or sensitive-looking commands, deduplicates by command text keeping
//! the most recent timestamp, and renders the result sorted by timestamp.

pub mod text;
pub mod record;
pub mod parse;
pub mod classify;
pub mod pipeline;
pub mod laws;
