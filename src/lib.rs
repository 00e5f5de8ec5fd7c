//! Translation of a parsed MIDI song into the event model of a PxTone project.
//!
//! The library works on its own plain model of a MIDI file (`midi`), decoded
//! from bytes by `midly` (`decode`). The translator (`translate`) walks each
//! track once, resolves note durations by a bounded forward scan (`duration`),
//! maps keys and pitch bend onto the target's fixed-point pitch (`pitch`),
//! rescales per-track tempos onto one reference tempo (`tempo`), and merges
//! the per-track event lists into one list ordered by tick (`merge`).
pub mod decode;
pub mod duration;
pub mod merge;
pub mod midi;
pub mod pitch;
pub mod target;
pub mod tempo;
pub mod translate;

pub use translate::Output;
