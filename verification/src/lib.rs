//! A text-to-speech pipeline core: splits input text into bounded chunks,
//! reorders concurrently-arriving audio fragments back into index order, and
//! drives one of two ordered consumers (live playback or sequential file
//! output). All decision logic lives here, verified; the surrounding I/O
//! (HTTP synthesis calls, audio output, file writes) is supplied by the
//! embedding application.

pub mod chunker;
pub mod config;
pub mod laws;
pub mod pipeline;
pub mod reorder;
