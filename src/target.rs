//! The target's event model, and the errors of a translation.
use vstd::prelude::*;

verus! {

/// What a target event does to its unit.
#[derive(Clone, Copy, Debug, PartialEq, Eq, Structural)]
pub enum Payload {
    /// Set the unit's pitch, in fixed-point units (256 per semitone).
    Key(i32),
    /// Set the unit's velocity.
    Velocity(i16),
    /// Sound the unit for this many ticks.
    On(u32),
    /// Play the unit with this voice slot.
    SetVoice(u32),
    /// Set the unit's volume.
    Volume(i16),
    /// The pitch offset of a bend: for inspection only, never to be written
    /// out with the song.
    PitchBendDebug(i32),
}

/// One target event: at an absolute tick, for a unit.
#[derive(Clone, Copy, Debug, PartialEq, Eq, Structural)]
pub struct Event {
    pub tick: u32,
    pub unit: u8,
    pub payload: Payload,
}

/// Why a translation failed. Every failure aborts the whole translation.
#[derive(Clone, Copy, Debug, PartialEq, Eq, Structural)]
pub enum TranslateError {
    /// The bytes are not a MIDI file that the decoder accepts.
    Malformed,
    /// The tracks are not laid out in parallel.
    UnsupportedFormat,
    /// Delta times are in timecode, not in ticks per beat.
    UnsupportedTiming,
    /// More tracks than a target project has units.
    TooManyUnits,
    /// A unit name does not fit the target's 16-byte name field.
    NameTooLong,
    /// A note-on is followed by nothing in its track that ends it.
    UnresolvedDuration,
    /// An absolute tick does not fit the target's tick range.
    TickOverflow,
}

} // verus!
