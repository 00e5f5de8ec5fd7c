//! Decoding MIDI bytes with `midly`, into the library's model of a file.
use vstd::prelude::*;
use midly::{MetaMessage, MidiMessage, TrackEventKind};
use crate::midi::{EventKind, Format, Header, MidiEvent, MidiFile, Timing};
use crate::target::TranslateError;
use crate::translate::{translate, translation_of, unit_name_of, Output};
use crate::merge::stably_sorted_from;

verus! {

#[verifier::external_type_specification]
#[verifier::external_body]
pub struct ExSmf<'a>(midly::Smf<'a>);

#[verifier::external_type_specification]
#[verifier::external_body]
pub struct ExMidlyError(midly::Error);

/// What `midly::Smf::parse` makes of a byte buffer: the header and the tracks
/// of the file, or `None` where it reports an error.
pub uninterp spec fn decoded(data: Seq<u8>) -> Option<(Header, Seq<Seq<MidiEvent>>)>;

/// What a parsed `midly::Smf` holds: its header and its tracks.
pub uninterp spec fn smf_content(s: midly::Smf) -> (Header, Seq<Seq<MidiEvent>>);

/// Relies on `midly::Smf::parse`: it fails exactly where `decoded` is `None`,
/// and otherwise holds what `decoded` gives.
#[verifier::external_body]
fn parse_smf(data: &[u8]) -> (r: Result<midly::Smf<'_>, midly::Error>)
    ensures
        r is Ok <==> decoded(data@) is Some,
        r is Ok ==> decoded(data@) == Some(smf_content(r->Ok_0)),
{
    midly::Smf::parse(data)
}

/// Relies on the public `header` field of `midly::Smf`, read variant by variant.
#[verifier::external_body]
fn smf_header(s: &midly::Smf) -> (r: Header)
    ensures
        r == smf_content(*s).0,
{
    let format = match s.header.format {
        midly::Format::SingleTrack => Format::SingleTrack,
        midly::Format::Parallel => Format::Parallel,
        midly::Format::Sequential => Format::Sequential,
    };
    let timing = match s.header.timing {
        midly::Timing::Metrical(t) => Timing::Metrical(t.as_int()),
        midly::Timing::Timecode(..) => Timing::Timecode,
    };
    Header { format, timing }
}

/// Relies on the public `tracks` field of `midly::Smf`: its length.
#[verifier::external_body]
fn track_count(s: &midly::Smf) -> (r: usize)
    ensures
        r == smf_content(*s).1.len(),
{
    s.tracks.len()
}

/// Relies on the public `tracks` field of `midly::Smf`: the length of one track.
#[verifier::external_body]
fn track_len(s: &midly::Smf, t: usize) -> (r: usize)
    requires
        t < smf_content(*s).1.len(),
    ensures
        r == smf_content(*s).1[t as int].len(),
{
    s.tracks[t].len()
}

/// Relies on the public `delta` field of `midly::TrackEvent`, through
/// `midly::num::u28::as_int`.
#[verifier::external_body]
fn event_delta(s: &midly::Smf, t: usize, i: usize) -> (r: u32)
    requires
        t < smf_content(*s).1.len(),
        i < smf_content(*s).1[t as int].len(),
    ensures
        r == smf_content(*s).1[t as int][i as int].delta,
{
    s.tracks[t][i].delta.as_int()
}

/// Relies on the public `kind` field of `midly::TrackEvent`, read variant by
/// variant, each number through its `as_int`.
#[verifier::external_body]
fn event_kind(s: &midly::Smf, t: usize, i: usize) -> (r: EventKind)
    requires
        t < smf_content(*s).1.len(),
        i < smf_content(*s).1[t as int].len(),
    ensures
        r == smf_content(*s).1[t as int][i as int].kind,
{
    match s.tracks[t][i].kind {
        TrackEventKind::Midi { message, .. } => match message {
            MidiMessage::NoteOn { key, vel } => EventKind::NoteOn(key.as_int(), vel.as_int()),
            MidiMessage::NoteOff { key, .. } => EventKind::NoteOff(key.as_int()),
            MidiMessage::Controller { controller: c, value: v } => EventKind::Controller(c.as_int(), v.as_int()),
            MidiMessage::ProgramChange { program } => EventKind::ProgramChange(program.as_int()),
            MidiMessage::PitchBend { bend } => EventKind::PitchBend(bend.as_int()),
            _ => EventKind::Other,
        },
        TrackEventKind::Meta(MetaMessage::Tempo(t)) => EventKind::Tempo(t.as_int()),
        _ => EventKind::Other,
    }
}

/// Decodes MIDI bytes into the library's model of the file.
pub fn decode(data: &[u8]) -> (r: Result<MidiFile, TranslateError>)
    ensures
        match decoded(data@) {
            None => r is Err && r->Err_0 == TranslateError::Malformed,
            Some((h, ts)) => r is Ok && r->Ok_0.header == h && r->Ok_0.tracks_seq() == ts,
        },
{
    let smf = match parse_smf(data) {
        Ok(s) => s,
        Err(_) => {
            return Err(TranslateError::Malformed);
        },
    };
    let ghost content = smf_content(smf);
    let header = smf_header(&smf);
    let n = track_count(&smf);
    let mut tracks: Vec<Vec<MidiEvent>> = Vec::new();
    let mut t: usize = 0;
    while t < n
        invariant
            n == content.1.len(),
            content == smf_content(smf),
            t <= n,
            tracks@.len() == t,
            forall|x: int| 0 <= x < t ==> (#[trigger] tracks@[x])@ == content.1[x],
        decreases n - t,
    {
        let len = track_len(&smf, t);
        let mut track: Vec<MidiEvent> = Vec::new();
        let mut i: usize = 0;
        while i < len
            invariant
                t < n,
                n == content.1.len(),
                content == smf_content(smf),
                len == content.1[t as int].len(),
                i <= len,
                track@ == content.1[t as int].subrange(0, i as int),
            decreases len - i,
        {
            let e = MidiEvent { delta: event_delta(&smf, t, i), kind: event_kind(&smf, t, i) };
            track.push(e);
            proof {
                assert(content.1[t as int].subrange(0, i + 1) == content.1[t as int].subrange(0, i as int).push(e));
            }
            i = i + 1;
        }
        proof {
            assert(content.1[t as int].subrange(0, len as int) == content.1[t as int]);
        }
        tracks.push(track);
        t = t + 1;
    }
    let file = MidiFile { header, tracks };
    proof {
        assert(file.tracks_seq() == content.1);
    }
    Ok(file)
}

/// Decodes MIDI bytes and translates the song that they hold.
pub fn translate_midi(data: &[u8], base_key: u8) -> (r: Result<Output, TranslateError>)
    ensures
        match decoded(data@) {
            None => r is Err && r->Err_0 == TranslateError::Malformed,
            Some((h, ts)) => match translation_of(h, ts, base_key) {
                Ok((tpb, tempo, programs, events)) => r is Ok
                    && r->Ok_0.ticks_per_beat == tpb
                    && r->Ok_0.tempo == tempo
                    && r->Ok_0.used_programs@ == programs
                    && stably_sorted_from(r->Ok_0.events@, events)
                    && r->Ok_0.unit_names@.len() == ts.len()
                    && forall|k: int| 0 <= k < ts.len() ==> (#[trigger] r->Ok_0.unit_names@[k])@ == unit_name_of(k as nat),
                Err(e) => r is Err && r->Err_0 == e,
            },
        },
{
    match decode(data) {
        Err(e) => Err(e),
        Ok(file) => translate(file.header, &file.tracks, base_key),
    }
}

} // verus!
