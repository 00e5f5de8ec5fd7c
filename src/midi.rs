//! The library's model of a MIDI file: what the translator reads of it.
use vstd::prelude::*;

verus! {

/// The part of a track event that the translator reads.
#[derive(Clone, Copy, Debug, PartialEq, Eq, Structural)]
pub enum EventKind {
    /// A channel note-on: key and velocity.
    NoteOn(u8, u8),
    /// A channel note-off: key.
    NoteOff(u8),
    /// A channel controller change: controller number and value.
    Controller(u8, u8),
    /// A channel program change: program number.
    ProgramChange(u8),
    /// A channel pitch bend, centred on zero, in `-0x2000..0x2000`.
    PitchBend(i16),
    /// A tempo meta event, in microseconds per beat.
    Tempo(u32),
    /// Any other event: read by nothing.
    Other,
}

/// One event of a track: its delta time in ticks since the previous event of
/// the same track, and what it is.
#[derive(Clone, Copy, Debug, PartialEq, Eq, Structural)]
pub struct MidiEvent {
    pub delta: u32,
    pub kind: EventKind,
}

/// How the tracks of a file relate to each other.
#[derive(Clone, Copy, Debug, PartialEq, Eq, Structural)]
pub enum Format {
    /// One track only.
    SingleTrack,
    /// Several tracks that play at once.
    Parallel,
    /// Several tracks that play one after the other.
    Sequential,
}

/// How delta times are measured.
#[derive(Clone, Copy, Debug, PartialEq, Eq, Structural)]
pub enum Timing {
    /// In ticks per beat.
    Metrical(u16),
    /// In timecode: not supported by the translator.
    Timecode,
}

/// The header of a MIDI file.
#[derive(Clone, Copy, Debug, PartialEq, Eq, Structural)]
pub struct Header {
    pub format: Format,
    pub timing: Timing,
}

/// A decoded MIDI file.
pub struct MidiFile {
    pub header: Header,
    pub tracks: Vec<Vec<MidiEvent>>,
}

/// The tracks of a file as a sequence of sequences of events.
pub open spec fn tracks_view(tracks: Seq<Vec<MidiEvent>>) -> Seq<Seq<MidiEvent>> {
    tracks.map_values(|t: Vec<MidiEvent>| t@)
}

impl MidiFile {
    pub open spec fn tracks_seq(&self) -> Seq<Seq<MidiEvent>> {
        tracks_view(self.tracks@)
    }
}

} // verus!
