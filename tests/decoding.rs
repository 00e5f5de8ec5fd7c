use mid2ptcop::decode::{decode, translate_midi};
use mid2ptcop::midi::{EventKind, Format, MidiEvent, Timing};
use mid2ptcop::target::{Payload, TranslateError};

fn file(format: u8, division: [u8; 2], track: &[u8]) -> Vec<u8> {
    let mut b = b"MThd".to_vec();
    b.extend_from_slice(&[0, 0, 0, 6, 0, format, 0, 1, division[0], division[1]]);
    b.extend_from_slice(b"MTrk");
    b.extend_from_slice(&(track.len() as u32).to_be_bytes());
    b.extend_from_slice(track);
    b
}

fn song_track() -> Vec<u8> {
    vec![
        0x00, 0xFF, 0x51, 0x03, 0x07, 0xA1, 0x20, // tempo 500 000
        0x00, 0xC0, 0x05, // program 5
        0x00, 0x90, 0x3C, 0x64, // note on 60, velocity 100
        0x83, 0x60, 0x80, 0x3C, 0x40, // 480 ticks later, note off 60
        0x00, 0xE0, 0x00, 0x60, // pitch bend +0x1000
        0x00, 0xB0, 0x07, 0x64, // channel volume 100
        0x00, 0xFF, 0x2F, 0x00, // end of track
    ]
}

#[test]
fn decodes_events_of_a_file() {
    let f = decode(&file(1, [0x01, 0xE0], &song_track())).ok().expect("decodes");
    assert_eq!(f.header.format, Format::Parallel);
    assert_eq!(f.header.timing, Timing::Metrical(480));
    let ev = |delta, kind| MidiEvent { delta, kind };
    assert_eq!(
        f.tracks,
        vec![vec![
            ev(0, EventKind::Tempo(500_000)),
            ev(0, EventKind::ProgramChange(5)),
            ev(0, EventKind::NoteOn(60, 100)),
            ev(480, EventKind::NoteOff(60)),
            ev(0, EventKind::PitchBend(4096)),
            ev(0, EventKind::Controller(7, 100)),
            ev(0, EventKind::Other),
        ]]
    );
}

#[test]
fn translates_a_file() {
    let out = translate_midi(&file(1, [0x01, 0xE0], &song_track()), 0).ok().expect("translates");
    assert_eq!(out.tempo, 500_000);
    assert_eq!(out.ticks_per_beat, 480);
    assert_eq!(out.used_programs, vec![5]);
    assert_eq!(out.unit_names, vec!["Track 0-0".to_string()]);
    let got: Vec<(u32, Payload)> = out.events.iter().map(|e| (e.tick, e.payload)).collect();
    assert_eq!(
        got,
        vec![
            (0, Payload::SetVoice(0)),
            (0, Payload::Key(15_360)),
            (0, Payload::Velocity(100)),
            (0, Payload::On(480)),
            (480, Payload::PitchBendDebug(1280)),
            (480, Payload::Key(15_360 + 1280)),
            (480, Payload::Volume(100)),
        ]
    );
}

#[test]
fn sequential_file_is_rejected() {
    let r = translate_midi(&file(2, [0x01, 0xE0], &song_track()), 0);
    assert_eq!(r.err(), Some(TranslateError::UnsupportedFormat));
}

#[test]
fn timecode_file_is_rejected() {
    let f = decode(&file(1, [0xE7, 0x28], &song_track())).ok().expect("decodes");
    assert_eq!(f.header.timing, Timing::Timecode);
    let r = translate_midi(&file(1, [0xE7, 0x28], &song_track()), 0);
    assert_eq!(r.err(), Some(TranslateError::UnsupportedTiming));
}

#[test]
fn garbage_is_malformed() {
    assert_eq!(decode(b"hello").err(), Some(TranslateError::Malformed));
    assert_eq!(translate_midi(b"", 0).err(), Some(TranslateError::Malformed));
}
