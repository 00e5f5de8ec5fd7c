use mid2ptcop::duration::note_duration;
use mid2ptcop::merge::merge_by_tick;
use mid2ptcop::midi::{EventKind, Format, Header, MidiEvent, Timing};
use mid2ptcop::pitch::{bend_offset, key_pitch};
use mid2ptcop::target::{Event, Payload, TranslateError};
use mid2ptcop::tempo::reference_tempo;
use mid2ptcop::translate::{translate, unit_name, Output};

fn ev(delta: u32, kind: EventKind) -> MidiEvent {
    MidiEvent { delta, kind }
}

fn parallel() -> Header {
    Header { format: Format::Parallel, timing: Timing::Metrical(480) }
}

fn run(tracks: Vec<Vec<MidiEvent>>) -> Output {
    translate(parallel(), &tracks, 0).ok().expect("translation fails")
}

fn payloads(out: &Output) -> Vec<Payload> {
    out.events.iter().map(|e| e.payload).collect()
}

#[test]
fn note_off_gives_duration() {
    let track = vec![ev(0, EventKind::NoteOn(60, 100)), ev(480, EventKind::NoteOff(60))];
    assert_eq!(note_duration(&track, 0), Some(480));
    let out = run(vec![track]);
    assert!(payloads(&out).contains(&Payload::On(480)));
}

#[test]
fn zero_velocity_note_on_gives_same_duration() {
    let track = vec![ev(0, EventKind::NoteOn(60, 100)), ev(480, EventKind::NoteOn(60, 0))];
    assert_eq!(note_duration(&track, 0), Some(480));
    let out = run(vec![track]);
    let ons: Vec<Payload> = payloads(&out).into_iter().filter(|p| matches!(p, Payload::On(_))).collect();
    // The velocity-zero note-on ends itself: its own duration is zero.
    assert_eq!(ons, vec![Payload::On(480), Payload::On(0)]);
}

#[test]
fn duration_skips_other_keys_and_sums_deltas() {
    let track = vec![
        ev(10, EventKind::NoteOn(60, 100)),
        ev(100, EventKind::NoteOff(61)),
        ev(50, EventKind::Other),
        ev(25, EventKind::NoteOff(60)),
    ];
    assert_eq!(note_duration(&track, 0), Some(175));
}

#[test]
fn long_duration_is_shortened() {
    let long = vec![ev(0, EventKind::NoteOn(60, 100)), ev(80_001, EventKind::NoteOff(60))];
    assert_eq!(note_duration(&long, 0), Some(100));
    let edge = vec![ev(0, EventKind::NoteOn(60, 100)), ev(80_000, EventKind::NoteOff(60))];
    assert_eq!(note_duration(&edge, 0), Some(80_000));
}

#[test]
fn missing_note_off_is_an_error() {
    let track = vec![ev(0, EventKind::NoteOn(60, 100)), ev(480, EventKind::NoteOff(61))];
    assert_eq!(note_duration(&track, 0), None);
    let r = translate(parallel(), &vec![track], 0);
    assert_eq!(r.err(), Some(TranslateError::UnresolvedDuration));
}

#[test]
fn programs_get_slots_in_first_occurrence_order() {
    let tracks = vec![
        vec![ev(0, EventKind::ProgramChange(5)), ev(10, EventKind::ProgramChange(2))],
        vec![ev(0, EventKind::ProgramChange(5)), ev(20, EventKind::ProgramChange(9))],
    ];
    let first = run(tracks.clone());
    assert_eq!(first.used_programs, vec![5, 2, 9]);
    let voices: Vec<(u8, u32, u32)> = first
        .events
        .iter()
        .filter_map(|e| match e.payload {
            Payload::SetVoice(s) => Some((e.unit, e.tick, s)),
            _ => None,
        })
        .collect();
    assert_eq!(voices, vec![(0, 0, 0), (1, 0, 0), (0, 10, 1), (1, 20, 2)]);
    let second = run(tracks);
    assert_eq!(second.used_programs, first.used_programs);
    assert_eq!(second.events, first.events);
}

#[test]
fn events_come_out_in_tick_order() {
    let tracks = vec![
        vec![ev(0, EventKind::Controller(7, 1)), ev(30, EventKind::Controller(7, 2)), ev(30, EventKind::Controller(7, 3))],
        vec![ev(10, EventKind::Controller(11, 4)), ev(20, EventKind::Controller(11, 5)), ev(40, EventKind::Controller(11, 6))],
    ];
    let out = run(tracks);
    let got: Vec<(u32, u8, Payload)> = out.events.iter().map(|e| (e.tick, e.unit, e.payload)).collect();
    assert_eq!(
        got,
        vec![
            (0, 0, Payload::Volume(1)),
            (10, 1, Payload::Volume(4)),
            (30, 0, Payload::Volume(2)),
            (30, 1, Payload::Volume(5)),
            (60, 0, Payload::Volume(3)),
            (70, 1, Payload::Volume(6)),
        ]
    );
    for w in out.events.windows(2) {
        assert!(w[0].tick <= w[1].tick);
    }
}

#[test]
fn no_tempo_gives_default_tempo() {
    let tracks = vec![vec![ev(0, EventKind::Other)]];
    assert_eq!(reference_tempo(&tracks), 500_000);
    let out = run(tracks);
    assert_eq!(out.tempo, 500_000);
    assert_eq!(60_000_000.0f32 / out.tempo as f32, 120.0);
}

#[test]
fn reference_tempo_is_fastest() {
    let one = vec![vec![ev(0, EventKind::Tempo(250_000)), ev(10, EventKind::Tempo(500_000))]];
    assert_eq!(reference_tempo(&one), 250_000);
    let tracks = vec![
        vec![ev(0, EventKind::Tempo(400_000)), ev(0, EventKind::Tempo(0))],
        vec![ev(0, EventKind::Tempo(600_000))],
    ];
    assert_eq!(reference_tempo(&tracks), 400_000);
    let zero_only = vec![vec![ev(0, EventKind::Tempo(0))]];
    assert_eq!(reference_tempo(&zero_only), 500_000);
}

#[test]
fn pitch_bend_restates_last_key() {
    let track = vec![
        ev(0, EventKind::NoteOn(60, 100)),
        ev(100, EventKind::PitchBend(4096)),
        ev(100, EventKind::NoteOff(60)),
    ];
    let out = run(vec![track]);
    let keys: Vec<(u32, Payload)> = out
        .events
        .iter()
        .filter(|e| matches!(e.payload, Payload::Key(_) | Payload::PitchBendDebug(_)))
        .map(|e| (e.tick, e.payload))
        .collect();
    assert_eq!(
        keys,
        vec![(0, Payload::Key(60 * 256)), (100, Payload::PitchBendDebug(1280)), (100, Payload::Key(60 * 256 + 1280))]
    );
}

#[test]
fn pitch_bend_without_note_emits_nothing() {
    let out = run(vec![vec![ev(0, EventKind::PitchBend(100))]]);
    assert!(out.events.is_empty());
}

#[test]
fn sequential_format_is_rejected() {
    let h = Header { format: Format::Sequential, timing: Timing::Metrical(96) };
    let r = translate(h, &vec![vec![ev(0, EventKind::NoteOn(60, 1)), ev(1, EventKind::NoteOff(60))]], 0);
    assert_eq!(r.err(), Some(TranslateError::UnsupportedFormat));
    let single = Header { format: Format::SingleTrack, timing: Timing::Metrical(96) };
    assert_eq!(translate(single, &vec![], 0).err(), Some(TranslateError::UnsupportedFormat));
}

#[test]
fn timecode_is_rejected() {
    let h = Header { format: Format::Parallel, timing: Timing::Timecode };
    assert_eq!(translate(h, &vec![], 0).err(), Some(TranslateError::UnsupportedTiming));
}

#[test]
fn too_many_tracks_are_rejected() {
    let tracks: Vec<Vec<MidiEvent>> = (0..51).map(|_| Vec::new()).collect();
    assert_eq!(translate(parallel(), &tracks, 0).err(), Some(TranslateError::TooManyUnits));
    let fits: Vec<Vec<MidiEvent>> = (0..50).map(|_| Vec::new()).collect();
    let out = translate(parallel(), &fits, 0).ok().expect("50 tracks fit");
    assert_eq!(out.unit_names.len(), 50);
    assert_eq!(out.unit_names[49], "Track 49-0");
}

#[test]
fn unit_names_are_short_and_numbered() {
    let out = run(vec![vec![], vec![], vec![]]);
    assert_eq!(out.unit_names, vec!["Track 0-0".to_string(), "Track 1-0".to_string(), "Track 2-0".to_string()]);
    assert!(out.unit_names.iter().all(|n| n.len() < 16));
}

#[test]
fn note_on_emits_key_velocity_and_on() {
    let track = vec![ev(5, EventKind::NoteOn(60, 90)), ev(7, EventKind::NoteOff(60))];
    let out = translate(parallel(), &vec![track], 12).ok().expect("translation fails");
    assert_eq!(
        out.events,
        vec![
            Event { tick: 5, unit: 0, payload: Payload::Key(72 * 256) },
            Event { tick: 5, unit: 0, payload: Payload::Velocity(90) },
            Event { tick: 5, unit: 0, payload: Payload::On(7) },
        ]
    );
    assert_eq!(out.ticks_per_beat, 480);
}

#[test]
fn bent_note_on_emits_marker_first() {
    let track = vec![
        ev(0, EventKind::PitchBend(-8192)),
        ev(0, EventKind::NoteOn(10, 1)),
        ev(1, EventKind::NoteOff(10)),
    ];
    let out = run(vec![track]);
    assert_eq!(
        payloads(&out),
        vec![Payload::PitchBendDebug(-2560), Payload::Key(0), Payload::Velocity(1), Payload::On(1)]
    );
}

#[test]
fn volume_controllers_only() {
    let track = vec![
        ev(0, EventKind::Controller(7, 100)),
        ev(0, EventKind::Controller(10, 64)),
        ev(0, EventKind::Controller(11, 50)),
    ];
    let out = run(vec![track]);
    assert_eq!(payloads(&out), vec![Payload::Volume(100), Payload::Volume(50)]);
}

#[test]
fn tempo_rescales_later_deltas() {
    // The reference is the fastest tempo, 240 beats per minute; the second
    // track plays at 120, so each of its ticks stands for two.
    let tracks = vec![
        vec![ev(0, EventKind::Tempo(250_000))],
        vec![
            ev(0, EventKind::Tempo(500_000)),
            ev(100, EventKind::NoteOn(60, 100)),
            ev(100, EventKind::NoteOff(60)),
            ev(3, EventKind::Controller(7, 1)),
        ],
    ];
    let out = run(tracks);
    assert_eq!(out.tempo, 250_000);
    let got: Vec<(u32, Payload)> = out.events.iter().map(|e| (e.tick, e.payload)).collect();
    assert_eq!(
        got,
        vec![
            (200, Payload::Key(60 * 256)),
            (200, Payload::Velocity(100)),
            (200, Payload::On(100)),
            (406, Payload::Volume(1)),
        ]
    );
}

#[test]
fn tick_overflow_is_an_error() {
    let track = vec![ev(u32::MAX, EventKind::Other), ev(1, EventKind::Other)];
    assert_eq!(translate(parallel(), &vec![track], 0).err(), Some(TranslateError::TickOverflow));
}

#[test]
fn key_pitch_values() {
    assert_eq!(key_pitch(60, 0, 0), 15_360);
    assert_eq!(key_pitch(60, 0, 8191), 15_360 + 2559);
    assert_eq!(key_pitch(0, 0, -8192), -2560);
    assert_eq!(key_pitch(0, 0, -1), 0);
    assert_eq!(key_pitch(127, 255, 0), 382 * 256);
    assert_eq!(bend_offset(-1), 0);
    assert_eq!(bend_offset(-4), -1);
    assert_eq!(bend_offset(4096), 1280);
    assert_eq!(bend_offset(0), 0);
}

#[test]
fn fastest_track_keeps_its_ticks() {
    let tracks = vec![
        vec![ev(0, EventKind::Tempo(500_000)), ev(100, EventKind::Controller(7, 1))],
        vec![ev(0, EventKind::Tempo(250_000)), ev(100, EventKind::Controller(7, 2))],
    ];
    let out = run(tracks);
    let got: Vec<(u32, u8)> = out.events.iter().map(|e| (e.tick, e.unit)).collect();
    assert_eq!(got, vec![(100, 1), (200, 0)]);
}

#[test]
fn unit_name_in_decimal() {
    assert_eq!(unit_name(0), "Track 0-0");
    assert_eq!(unit_name(7), "Track 7-0");
    assert_eq!(unit_name(42), "Track 42-0");
    assert_eq!(unit_name(1_234_567), "Track 1234567-0");
    assert_eq!(unit_name(10_000_000).len(), 16);
}

#[test]
fn merge_keeps_order_within_a_tick() {
    let e = |tick, v| Event { tick, unit: 0, payload: Payload::Volume(v) };
    let a = vec![e(0, 1), e(5, 2), e(5, 3), e(9, 4)];
    let b = vec![e(5, 10), e(5, 11), e(6, 12)];
    let r = merge_by_tick(&a, &b);
    assert_eq!(r, vec![e(0, 1), e(5, 2), e(5, 3), e(5, 10), e(5, 11), e(6, 12), e(9, 4)]);
    assert_eq!(merge_by_tick(&Vec::new(), &b), b);
}
