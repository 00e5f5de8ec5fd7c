//! The track translator: one walk over each track, from MIDI events to target
//! events, and the assembly of the whole song.
use vstd::prelude::*;
use vstd::set_lib::*;
use vstd::string::{StringExecFns, StringSliceAdditionalSpecFns};
use crate::duration::{delta_span, note_duration, note_duration_of};
use crate::merge::{at_tick, lemma_at_tick_concat, merge_by_tick, stably_sorted_from, tick_sorted};
use crate::midi::{tracks_view, EventKind, Format, Header, MidiEvent, Timing};
use crate::pitch::{bend_offset, bend_offset_of, key_pitch, key_pitch_of};
use crate::target::{Event, Payload, TranslateError};
use crate::tempo::{lemma_no_tempo_gives_default, no_tempo_in, reference_tempo, reference_tempo_of, DEFAULT_TEMPO};

verus! {

/// Controller number of channel volume.
pub const CONTROLLER_VOLUME: u8 = 7;

/// Controller number of expression, a second volume.
pub const CONTROLLER_EXPRESSION: u8 = 11;

/// Width of the target's unit name field, in bytes: a name must be shorter.
pub const NAME_FIELD_BYTES: usize = 16;

/// Number of units that a target project holds at most.
pub const MAX_UNITS: usize = 50;

/// What the walk over one track carries from one event to the next.
#[derive(Clone, Copy, Debug, PartialEq, Eq, Structural)]
pub struct TrackState {
    /// The absolute tick of the last event.
    pub clock: u32,
    /// The track's tempo in microseconds per beat; 0 until it declares one.
    pub tempo: u32,
    /// The current pitch bend.
    pub bend: i16,
    /// The key of the last note-on.
    pub last_key: Option<u8>,
}

/// The state before the first event of a track.
pub open spec fn initial_state() -> TrackState {
    TrackState { clock: 0, tempo: 0, bend: 0, last_key: None }
}

/// The ticks that a delta time stands for on the reference clock. Once the
/// track declares a tempo, the delta is scaled by the ratio of the reference
/// tempo to the track's tempo in beats per minute, which is the track's
/// microseconds per beat over the reference's, and rounded down.
pub open spec fn scaled_delta(delta: u32, tempo: u32, reference: u32) -> int {
    if tempo == 0 || reference == 0 {
        delta as int
    } else {
        (delta as int * tempo as int) / (reference as int)
    }
}

/// The events that set a unit's pitch to a bent key: a bend marker where the
/// bend is not zero, then the key.
pub open spec fn key_events(unit: u8, tick: u32, key: u8, base_key: u8, bend: i16) -> Seq<Event> {
    let k = Event { tick: tick, unit: unit, payload: Payload::Key(key_pitch_of(key, base_key, bend) as i32) };
    if bend != 0 {
        seq![Event { tick: tick, unit: unit, payload: Payload::PitchBendDebug(bend_offset_of(bend) as i32) }, k]
    } else {
        seq![k]
    }
}

/// The first index at or after `i` that holds `p`; the length where none does.
pub open spec fn program_slot(programs: Seq<u8>, p: u8, i: int) -> int
    decreases programs.len() - i,
{
    if i < 0 || i >= programs.len() {
        programs.len() as int
    } else if programs[i] == p {
        i
    } else {
        program_slot(programs, p, i + 1)
    }
}

/// The programs seen so far after a program change to `p`: `p` is added at
/// the end where it is new.
pub open spec fn programs_after(programs: Seq<u8>, p: u8) -> Seq<u8> {
    if program_slot(programs, p, 0) == programs.len() { programs.push(p) } else { programs }
}

/// One event of a track: the clock first moves on by the event's scaled delta
/// time, then the event is dispatched at the new clock.
pub open spec fn step(
    track: Seq<MidiEvent>,
    i: int,
    unit: u8,
    reference: u32,
    base_key: u8,
    st: TrackState,
    programs: Seq<u8>,
) -> Result<(TrackState, Seq<u8>, Seq<Event>), TranslateError> {
    let e = track[i];
    let clock = st.clock + scaled_delta(e.delta, st.tempo, reference);
    if clock > u32::MAX {
        Err(TranslateError::TickOverflow)
    } else {
        let c = clock as u32;
        let s = TrackState { clock: c, tempo: st.tempo, bend: st.bend, last_key: st.last_key };
        match e.kind {
            EventKind::NoteOn(k, v) => match note_duration_of(track, i) {
                None => Err(TranslateError::UnresolvedDuration),
                Some(d) => Ok((
                    TrackState { clock: c, tempo: st.tempo, bend: st.bend, last_key: Some(k) },
                    programs,
                    key_events(unit, c, k, base_key, st.bend) + seq![
                        Event { tick: c, unit: unit, payload: Payload::Velocity(v as i16) },
                        Event { tick: c, unit: unit, payload: Payload::On(d) },
                    ],
                )),
            },
            EventKind::ProgramChange(p) => Ok((
                s,
                programs_after(programs, p),
                seq![Event { tick: c, unit: unit, payload: Payload::SetVoice(program_slot(programs, p, 0) as u32) }],
            )),
            EventKind::PitchBend(b) => Ok((
                TrackState { clock: c, tempo: st.tempo, bend: b, last_key: st.last_key },
                programs,
                match st.last_key {
                    Some(k) => key_events(unit, c, k, base_key, b),
                    None => Seq::empty(),
                },
            )),
            EventKind::Controller(n, v) => Ok((
                s,
                programs,
                if n == CONTROLLER_VOLUME || n == CONTROLLER_EXPRESSION {
                    seq![Event { tick: c, unit: unit, payload: Payload::Volume(v as i16) }]
                } else {
                    Seq::empty()
                },
            )),
            EventKind::Tempo(t) => Ok((
                TrackState { clock: c, tempo: if t == 0 { st.tempo } else { t }, bend: st.bend, last_key: st.last_key },
                programs,
                Seq::empty(),
            )),
            _ => Ok((s, programs, Seq::empty())),
        }
    }
}

/// The first `n` events of a track, walked from the initial state with the
/// programs seen in earlier tracks: the state reached, the programs seen, and
/// the events emitted.
pub open spec fn run_track(
    track: Seq<MidiEvent>,
    n: int,
    unit: u8,
    reference: u32,
    base_key: u8,
    programs: Seq<u8>,
) -> Result<(TrackState, Seq<u8>, Seq<Event>), TranslateError>
    decreases n,
{
    if n <= 0 {
        Ok((initial_state(), programs, Seq::empty()))
    } else {
        match run_track(track, n - 1, unit, reference, base_key, programs) {
            Err(e) => Err(e),
            Ok((st, ps, out)) => match step(track, n - 1, unit, reference, base_key, st, ps) {
                Err(e) => Err(e),
                Ok((st2, ps2, more)) => Ok((st2, ps2, out + more)),
            },
        }
    }
}

/// The decimal digit `d`.
pub open spec fn digit_char(d: nat) -> char {
    seq!['0', '1', '2', '3', '4', '5', '6', '7', '8', '9'][d as int]
}

/// `n` in decimal, without leading zeros.
pub open spec fn decimal_of(n: nat) -> Seq<char>
    decreases n,
{
    if n < 10 {
        seq![digit_char(n)]
    } else {
        decimal_of(n / 10).push(digit_char(n % 10))
    }
}

/// The name of the unit of track `k`: `Track <k>-0`.
pub open spec fn unit_name_of(k: nat) -> Seq<char> {
    seq!['T', 'r', 'a', 'c', 'k', ' '] + decimal_of(k) + seq!['-', '0']
}

/// The first `n` tracks, walked in order with the programs seen threaded from
/// one to the next: the programs seen and the events emitted, track after
/// track. A track whose unit name does not fit fails before its events.
pub open spec fn run_tracks(
    tracks: Seq<Seq<MidiEvent>>,
    n: int,
    reference: u32,
    base_key: u8,
) -> Result<(Seq<u8>, Seq<Event>), TranslateError>
    decreases n,
{
    if n <= 0 {
        Ok((Seq::empty(), Seq::empty()))
    } else {
        match run_tracks(tracks, n - 1, reference, base_key) {
            Err(e) => Err(e),
            Ok((ps, evs)) => if unit_name_of((n - 1) as nat).len() >= NAME_FIELD_BYTES {
                Err(TranslateError::NameTooLong)
            } else {
                match run_track(tracks[n - 1], tracks[n - 1].len() as int, (n - 1) as u8, reference, base_key, ps) {
                    Err(e) => Err(e),
                    Ok((_, ps2, more)) => Ok((ps2, evs + more)),
                }
            },
        }
    }
}

/// The translation of a song, before its events are ordered by tick: ticks
/// per beat, reference tempo, the programs in slot order, and the events track
/// after track.
pub open spec fn translation_of(header: Header, tracks: Seq<Seq<MidiEvent>>, base_key: u8) -> Result<
    (u16, u32, Seq<u8>, Seq<Event>),
    TranslateError,
> {
    if header.format != Format::Parallel {
        Err(TranslateError::UnsupportedFormat)
    } else {
        match header.timing {
            Timing::Timecode => Err(TranslateError::UnsupportedTiming),
            Timing::Metrical(tpb) => if tracks.len() > MAX_UNITS {
                Err(TranslateError::TooManyUnits)
            } else {
                let reference = reference_tempo_of(tracks);
                match run_tracks(tracks, tracks.len() as int, reference, base_key) {
                    Err(e) => Err(e),
                    Ok((ps, evs)) => Ok((tpb, reference, ps, evs)),
                }
            },
        }
    }
}


/// Whether every event of `s` is at tick `c`.
pub open spec fn all_at(s: Seq<Event>, c: u32) -> bool {
    forall|x: int| 0 <= x < s.len() ==> (#[trigger] s[x]).tick == c
}

/// Whether every event of `s` is at or before tick `c`.
pub open spec fn none_after(s: Seq<Event>, c: u32) -> bool {
    forall|x: int| 0 <= x < s.len() ==> (#[trigger] s[x]).tick <= c
}

proof fn lemma_append_at(s: Seq<Event>, more: Seq<Event>, old_clock: u32, c: u32)
    requires
        tick_sorted(s),
        none_after(s, old_clock),
        old_clock <= c,
        all_at(more, c),
    ensures
        tick_sorted(s + more),
        none_after(s + more, c),
{
    let t = s + more;
    assert forall|x: int, y: int| 0 <= x < y < t.len() implies (#[trigger] t[x]).tick <= (#[trigger] t[y]).tick by {
        if y >= s.len() {
            assert(t[y] == more[y - s.len()]);
            if x >= s.len() {
                assert(t[x] == more[x - s.len()]);
            } else {
                assert(t[x] == s[x]);
            }
        } else {
            assert(t[x] == s[x]);
            assert(t[y] == s[y]);
        }
    }
    assert forall|x: int| 0 <= x < t.len() implies (#[trigger] t[x]).tick <= c by {
        if x >= s.len() {
            assert(t[x] == more[x - s.len()]);
        } else {
            assert(t[x] == s[x]);
        }
    }
}

proof fn lemma_step_shape(
    track: Seq<MidiEvent>,
    i: int,
    unit: u8,
    reference: u32,
    base_key: u8,
    st: TrackState,
    programs: Seq<u8>,
)
    ensures
        step(track, i, unit, reference, base_key, st, programs) matches Ok((st2, _, more)) ==> st.clock
            <= st2.clock && all_at(more, st2.clock),
{
}

proof fn lemma_slot_range(programs: Seq<u8>, p: u8, i: int)
    requires
        0 <= i <= programs.len(),
    ensures
        i <= program_slot(programs, p, i) <= programs.len(),
        program_slot(programs, p, i) < programs.len() ==> programs[program_slot(programs, p, i)] == p,
        program_slot(programs, p, i) == programs.len() ==> forall|x: int| i <= x < programs.len() ==> programs[x] != p,
    decreases programs.len() - i,
{
    if i < programs.len() && programs[i] != p {
        lemma_slot_range(programs, p, i + 1);
    }
}

proof fn lemma_distinct_len(ps: Seq<u8>)
    requires
        ps.no_duplicates(),
    ensures
        ps.len() <= 256,
{
    let ints = ps.map_values(|x: u8| x as int);
    assert(ints.no_duplicates()) by {
        assert forall|a: int, b: int| 0 <= a < ints.len() && 0 <= b < ints.len() && a != b implies ints[a] != ints[b] by {
            assert(ps[a] != ps[b]);
        }
    }
    ints.unique_seq_to_set();
    assert(ints.to_set().subset_of(set_int_range(0, 256))) by {
        assert forall|v: int| ints.to_set().contains(v) implies set_int_range(0, 256).contains(v) by {
            let a = choose|a: int| 0 <= a < ints.len() && ints[a] == v;
        }
    }
    lemma_int_range(0, 256);
    vstd::set_lib::lemma_len_subset(ints.to_set(), set_int_range(0, 256));
}

/// Finds the voice slot of program `p`, adding `p` where it is new.
fn program_slot_for(programs: &mut Vec<u8>, p: u8) -> (r: u32)
    requires
        old(programs)@.no_duplicates(),
    ensures
        r == program_slot(old(programs)@, p, 0),
        final(programs)@ == programs_after(old(programs)@, p),
        final(programs)@.no_duplicates(),
{
    proof {
        lemma_distinct_len(programs@);
        lemma_slot_range(programs@, p, 0);
    }
    let mut i: usize = 0;
    while i < programs.len()
        invariant
            i <= programs@.len() <= 256,
            programs@ == old(programs)@,
            programs@.no_duplicates(),
            program_slot(programs@, p, 0) == program_slot(programs@, p, i as int),
        decreases programs@.len() - i,
    {
        if programs[i] == p {
            return i as u32;
        }
        i = i + 1;
    }
    let ghost before = programs@;
    proof {
        lemma_slot_range(before, p, 0);
    }
    programs.push(p);
    proof {
        assert forall|a: int, b: int| 0 <= a < programs@.len() && 0 <= b < programs@.len() && a != b implies programs@[a] != programs@[b] by {
            if a < before.len() && b < before.len() {
                assert(before[a] != before[b]);
            }
        }
    }
    i as u32
}

fn push_key_events(out: &mut Vec<Event>, unit: u8, tick: u32, key: u8, base_key: u8, bend: i16)
    ensures
        final(out)@ == old(out)@ + key_events(unit, tick, key, base_key, bend),
{
    let ghost o = out@;
    if bend != 0 {
        out.push(Event { tick: tick, unit: unit, payload: Payload::PitchBendDebug(bend_offset(bend)) });
    }
    out.push(Event { tick: tick, unit: unit, payload: Payload::Key(key_pitch(key, base_key, bend)) });
    proof {
        assert(out@ == o + key_events(unit, tick, key, base_key, bend));
    }
}

/// Translates event `i` of a track: the next state, with the programs seen
/// and the events emitted added to `programs` and `out`.
fn translate_event(
    track: &Vec<MidiEvent>,
    i: usize,
    unit: u8,
    reference: u32,
    base_key: u8,
    st: TrackState,
    programs: &mut Vec<u8>,
    out: &mut Vec<Event>,
) -> (r: Result<TrackState, TranslateError>)
    requires
        i < track@.len(),
        old(programs)@.no_duplicates(),
    ensures
        match step(track@, i as int, unit, reference, base_key, st, old(programs)@) {
            Ok((st2, ps2, more)) => r == Ok::<TrackState, TranslateError>(st2)
                && final(programs)@ == ps2 && final(out)@ == old(out)@ + more
                && final(programs)@.no_duplicates(),
            Err(e) => r == Err::<TrackState, TranslateError>(e),
        },
{
    let e = track[i];
    proof {
        assert(e.delta as int * st.tempo as int <= 0xffff_ffff * 0xffff_ffff) by (nonlinear_arith)
            requires
                e.delta <= 0xffff_ffff,
                st.tempo <= 0xffff_ffff,
        ;
        assert(0 <= e.delta as int * st.tempo as int) by (nonlinear_arith)
            requires
                e.delta >= 0,
                st.tempo >= 0,
        ;
        if reference != 0 {
            assert((e.delta as int * st.tempo as int) / (reference as int) <= e.delta as int * st.tempo as int)
                by (nonlinear_arith)
                requires
                    reference >= 1,
                    e.delta as int * st.tempo as int >= 0,
            ;
        }
    }
    let scaled: u128 = if st.tempo == 0 || reference == 0 {
        e.delta as u128
    } else {
        let product: u128 = e.delta as u128 * st.tempo as u128;
        product / (reference as u128)
    };
    let clock: u128 = st.clock as u128 + scaled;
    if clock > u32::MAX as u128 {
        return Err(TranslateError::TickOverflow);
    }
    let c = clock as u32;
    let ghost o = out@;
    match e.kind {
        EventKind::NoteOn(k, v) => {
            match note_duration(track, i) {
                None => Err(TranslateError::UnresolvedDuration),
                Some(d) => {
                    push_key_events(out, unit, c, k, base_key, st.bend);
                    out.push(Event { tick: c, unit: unit, payload: Payload::Velocity(v as i16) });
                    out.push(Event { tick: c, unit: unit, payload: Payload::On(d) });
                    proof {
                        assert(out@ == o + (key_events(unit, c, k, base_key, st.bend) + seq![
                            Event { tick: c, unit: unit, payload: Payload::Velocity(v as i16) },
                            Event { tick: c, unit: unit, payload: Payload::On(d) },
                        ]));
                    }
                    Ok(TrackState { clock: c, tempo: st.tempo, bend: st.bend, last_key: Some(k) })
                },
            }
        },
        EventKind::ProgramChange(p) => {
            let slot = program_slot_for(programs, p);
            out.push(Event { tick: c, unit: unit, payload: Payload::SetVoice(slot) });
            proof {
                assert(out@ == o + seq![Event { tick: c, unit: unit, payload: Payload::SetVoice(slot) }]);
            }
            Ok(TrackState { clock: c, tempo: st.tempo, bend: st.bend, last_key: st.last_key })
        },
        EventKind::PitchBend(b) => {
            match st.last_key {
                Some(k) => {
                    push_key_events(out, unit, c, k, base_key, b);
                },
                None => {
                    assert(out@ == o + Seq::<Event>::empty());
                },
            }
            Ok(TrackState { clock: c, tempo: st.tempo, bend: b, last_key: st.last_key })
        },
        EventKind::Controller(n, v) => {
            if n == CONTROLLER_VOLUME || n == CONTROLLER_EXPRESSION {
                out.push(Event { tick: c, unit: unit, payload: Payload::Volume(v as i16) });
                proof {
                    assert(out@ == o + seq![Event { tick: c, unit: unit, payload: Payload::Volume(v as i16) }]);
                }
            } else {
                assert(out@ == o + Seq::<Event>::empty());
            }
            Ok(TrackState { clock: c, tempo: st.tempo, bend: st.bend, last_key: st.last_key })
        },
        EventKind::Tempo(t) => {
            assert(out@ == o + Seq::<Event>::empty());
            Ok(TrackState { clock: c, tempo: if t == 0 { st.tempo } else { t }, bend: st.bend, last_key: st.last_key })
        },
        _ => {
            assert(out@ == o + Seq::<Event>::empty());
            Ok(TrackState { clock: c, tempo: st.tempo, bend: st.bend, last_key: st.last_key })
        },
    }
}

proof fn lemma_run_track_error(
    track: Seq<MidiEvent>,
    n: int,
    m: int,
    unit: u8,
    reference: u32,
    base_key: u8,
    programs: Seq<u8>,
)
    requires
        0 <= n <= m,
        run_track(track, n, unit, reference, base_key, programs) is Err,
    ensures
        run_track(track, m, unit, reference, base_key, programs) == run_track(track, n, unit, reference, base_key, programs),
    decreases m - n,
{
    if n < m {
        lemma_run_track_error(track, n, m - 1, unit, reference, base_key, programs);
    }
}

/// Translates one track into its events, with the programs that it brings in
/// added to `programs`. The events come out in order of tick.
pub fn translate_track(
    track: &Vec<MidiEvent>,
    unit: u8,
    reference: u32,
    base_key: u8,
    programs: &mut Vec<u8>,
) -> (r: Result<Vec<Event>, TranslateError>)
    requires
        old(programs)@.no_duplicates(),
    ensures
        match run_track(track@, track@.len() as int, unit, reference, base_key, old(programs)@) {
            Ok((_, ps, evs)) => r is Ok && r->Ok_0@ == evs && final(programs)@ == ps
                && final(programs)@.no_duplicates() && tick_sorted(evs),
            Err(e) => r == Err::<Vec<Event>, TranslateError>(e),
        },
{
    let ghost ps0 = programs@;
    let mut out: Vec<Event> = Vec::new();
    let mut st = TrackState { clock: 0, tempo: 0, bend: 0, last_key: None };
    let mut i: usize = 0;
    while i < track.len()
        invariant
            i <= track@.len(),
            ps0 == old(programs)@,
            run_track(track@, i as int, unit, reference, base_key, ps0) == Ok::<
                (TrackState, Seq<u8>, Seq<Event>),
                TranslateError,
            >((st, programs@, out@)),
            programs@.no_duplicates(),
            tick_sorted(out@),
            none_after(out@, st.clock),
        decreases track@.len() - i,
    {
        let ghost o = out@;
        let ghost ps = programs@;
        let ghost st0 = st;
        proof {
            lemma_step_shape(track@, i as int, unit, reference, base_key, st, programs@);
        }
        match translate_event(track, i, unit, reference, base_key, st, programs, &mut out) {
            Err(e) => {
                proof {
                    assert(step(track@, i as int, unit, reference, base_key, st0, ps) == Err::<
                        (TrackState, Seq<u8>, Seq<Event>),
                        TranslateError,
                    >(e));
                    assert(run_track(track@, i + 1, unit, reference, base_key, ps0) == Err::<
                        (TrackState, Seq<u8>, Seq<Event>),
                        TranslateError,
                    >(e));
                    lemma_run_track_error(track@, i + 1, track@.len() as int, unit, reference, base_key, ps0);
                    assert(run_track(track@, track@.len() as int, unit, reference, base_key, ps0) == Err::<
                        (TrackState, Seq<u8>, Seq<Event>),
                        TranslateError,
                    >(e));
                }
                return Err(e);
            },
            Ok(st2) => {
                proof {
                    let more = out@.subrange(o.len() as int, out@.len() as int);
                    assert(out@ == o + more);
                    lemma_append_at(o, more, st0.clock, st2.clock);
                }
                st = st2;
            },
        }
        i = i + 1;
    }
    Ok(out)
}

/// The decimal digit `d` as a string.
fn digit_str(d: usize) -> (r: &'static str)
    requires
        d < 10,
    ensures
        r@ == seq![digit_char(d as nat)],
{
    proof {
        reveal_strlit("0");
        reveal_strlit("1");
        reveal_strlit("2");
        reveal_strlit("3");
        reveal_strlit("4");
        reveal_strlit("5");
        reveal_strlit("6");
        reveal_strlit("7");
        reveal_strlit("8");
        reveal_strlit("9");
    }
    if d == 0 {
        "0"
    } else if d == 1 {
        "1"
    } else if d == 2 {
        "2"
    } else if d == 3 {
        "3"
    } else if d == 4 {
        "4"
    } else if d == 5 {
        "5"
    } else if d == 6 {
        "6"
    } else if d == 7 {
        "7"
    } else if d == 8 {
        "8"
    } else {
        "9"
    }
}

/// Appends `n` in decimal to `s`.
fn append_decimal(s: &mut String, n: usize)
    ensures
        final(s)@ == old(s)@ + decimal_of(n as nat),
    decreases n,
{
    if n >= 10 {
        append_decimal(s, n / 10);
    }
    s.append(digit_str(n % 10));
    proof {
        if n >= 10 {
            assert(old(s)@ + decimal_of((n / 10) as nat) + seq![digit_char((n % 10) as nat)] == old(s)@
                + decimal_of(n as nat));
        } else {
            assert(decimal_of(n as nat) == seq![digit_char(n as nat)]);
        }
    }
}

/// The name of the unit of track `k`.
pub fn unit_name(k: usize) -> (r: String)
    ensures
        r@ == unit_name_of(k as nat),
{
    proof {
        reveal_strlit("Track ");
        reveal_strlit("-0");
    }
    let mut name = String::from_str("Track ");
    append_decimal(&mut name, k);
    name.append("-0");
    name
}

proof fn lemma_decimal_ascii(n: nat)
    ensures
        vstd::utf8::is_ascii_chars(decimal_of(n)),
    decreases n,
{
    if n >= 10 {
        lemma_decimal_ascii(n / 10);
        let d = decimal_of(n / 10);
        assert(decimal_of(n) == d.push(digit_char(n % 10)));
        assert forall|x: int| 0 <= x < decimal_of(n).len() implies '\0' <= #[trigger] decimal_of(n)[x] <= '\u{7f}' by {
            if x < d.len() {
                assert(decimal_of(n)[x] == d[x]);
            }
        }
    }
}

proof fn lemma_decimal_len(n: nat)
    ensures
        decimal_of(n).len() <= n + 1,
    decreases n,
{
    if n >= 10 {
        lemma_decimal_len(n / 10);
    }
}

/// The length in bytes of a unit name is its length in characters.
proof fn lemma_name_bytes(name: &str, k: nat)
    requires
        name@ == unit_name_of(k),
    ensures
        name.spec_bytes().len() == unit_name_of(k).len(),
        unit_name_of(k).len() <= k + 9,
{
    lemma_decimal_len(k);
    lemma_decimal_ascii(k);
    let n = unit_name_of(k);
    let d = decimal_of(k);
    assert forall|x: int| 0 <= x < n.len() implies '\0' <= #[trigger] n[x] <= '\u{7f}' by {
        if 6 <= x < 6 + d.len() {
            assert(n[x] == d[x - 6]);
        }
    }
    vstd::string::is_ascii_spec_bytes(name);
}

/// The translated song.
pub struct Output {
    /// All events, ordered by tick; events at one tick in the order in which
    /// they were emitted, track after track.
    pub events: Vec<Event>,
    /// The name of the unit of each track, in track order.
    pub unit_names: Vec<String>,
    /// Ticks per beat of the song.
    pub ticks_per_beat: u16,
    /// The reference tempo, in microseconds per beat.
    pub tempo: u32,
    /// The programs used, in voice-slot order: program `used_programs[s]` has
    /// slot `s`, and each program appears once.
    pub used_programs: Vec<u8>,
}

proof fn lemma_run_tracks_error(tracks: Seq<Seq<MidiEvent>>, n: int, m: int, reference: u32, base_key: u8)
    requires
        0 <= n <= m,
        run_tracks(tracks, n, reference, base_key) is Err,
    ensures
        run_tracks(tracks, m, reference, base_key) == run_tracks(tracks, n, reference, base_key),
    decreases m - n,
{
    if n < m {
        lemma_run_tracks_error(tracks, n, m - 1, reference, base_key);
    }
}

/// Translates a decoded song: checks its header, walks each track with one
/// unit per track (whether or not the track plays a note), and orders all
/// events by tick.
///
/// Time: the song has one reference tempo, the fastest that it declares.
/// Once a track declares a tempo, its delta times are scaled by the track's
/// microseconds per beat over the reference's (the reference's beats per
/// minute over the track's), and rounded down. Durations are the plain sum of delta times. A note-on that
/// nothing ends fails the translation; a duration above `LONG_NOTE_TICKS` is
/// shortened to `SHORTENED_NOTE_TICKS`.
pub fn translate(header: Header, tracks: &Vec<Vec<MidiEvent>>, base_key: u8) -> (r: Result<Output, TranslateError>)
    ensures
        match translation_of(header, tracks_view(tracks@), base_key) {
            Ok((tpb, tempo, programs, events)) => r is Ok
                && r->Ok_0.ticks_per_beat == tpb
                && r->Ok_0.tempo == tempo
                && r->Ok_0.used_programs@ == programs
                && stably_sorted_from(r->Ok_0.events@, events)
                && r->Ok_0.unit_names@.len() == tracks@.len()
                && forall|k: int| 0 <= k < tracks@.len() ==> (#[trigger] r->Ok_0.unit_names@[k])@ == unit_name_of(k as nat),
            Err(e) => r is Err && r->Err_0 == e,
        },
{
    match header.format {
        Format::Parallel => {},
        _ => {
            return Err(TranslateError::UnsupportedFormat);
        },
    }
    let ticks_per_beat = match header.timing {
        Timing::Timecode => {
            return Err(TranslateError::UnsupportedTiming);
        },
        Timing::Metrical(tpb) => tpb,
    };
    assert(header.timing == Timing::Metrical(ticks_per_beat));
    if tracks.len() > MAX_UNITS {
        return Err(TranslateError::TooManyUnits);
    }
    let ghost ts = tracks_view(tracks@);
    let reference = reference_tempo(tracks);
    let mut programs: Vec<u8> = Vec::new();
    let mut events: Vec<Event> = Vec::new();
    let mut unit_names: Vec<String> = Vec::new();
    let ghost mut all: Seq<Event> = Seq::empty();
    let mut k: usize = 0;
    while k < tracks.len()
        invariant
            k <= tracks@.len() <= MAX_UNITS,
            header.format == Format::Parallel,
            header.timing == Timing::Metrical(ticks_per_beat),
            ts == tracks_view(tracks@),
            reference == reference_tempo_of(ts),
            run_tracks(ts, k as int, reference, base_key) == Ok::<(Seq<u8>, Seq<Event>), TranslateError>((programs@, all)),
            programs@.no_duplicates(),
            stably_sorted_from(events@, all),
            unit_names@.len() == k,
            forall|x: int| 0 <= x < k ==> (#[trigger] unit_names@[x])@ == unit_name_of(x as nat),
        decreases tracks@.len() - k,
    {
        let name = unit_name(k);
        let name_str = name.as_str();
        assert(name_str@ == name@);
        proof {
            lemma_name_bytes(name_str, k as nat);
        }
        if name_str.len() >= NAME_FIELD_BYTES {
            proof {
                lemma_run_tracks_error(ts, k + 1, ts.len() as int, reference, base_key);
            }
            assert(run_tracks(ts, k + 1, reference, base_key) == Err::<(Seq<u8>, Seq<Event>), TranslateError>(TranslateError::NameTooLong));
            assert(run_tracks(ts, ts.len() as int, reference, base_key) == Err::<(Seq<u8>, Seq<Event>), TranslateError>(TranslateError::NameTooLong));
            assert(translation_of(header, ts, base_key) == Err::<(u16, u32, Seq<u8>, Seq<Event>), TranslateError>(TranslateError::NameTooLong));
            return Err(TranslateError::NameTooLong);
        }
        assert(ts[k as int] == tracks@[k as int]@);
        assert(unit_name_of(k as nat).len() < NAME_FIELD_BYTES);
        assert(((k + 1) - 1) as u8 == k as u8);
        let ghost ps = programs@;
        match translate_track(&tracks[k], k as u8, reference, base_key, &mut programs) {
            Err(e) => {
                proof {
                    assert(run_track(ts[k as int], ts[k as int].len() as int, k as u8, reference, base_key, ps) == Err::<
                        (TrackState, Seq<u8>, Seq<Event>),
                        TranslateError,
                    >(e));
                    assert(run_tracks(ts, k + 1, reference, base_key) == Err::<(Seq<u8>, Seq<Event>), TranslateError>(e));
                    lemma_run_tracks_error(ts, k + 1, ts.len() as int, reference, base_key);
                }
                return Err(e);
            },
            Ok(more) => {
                assert(run_tracks(ts, k + 1, reference, base_key) == Ok::<(Seq<u8>, Seq<Event>), TranslateError>((programs@, all + more@)));
                let merged = merge_by_tick(&events, &more);
                proof {
                    assert forall|t: u32| #[trigger] at_tick(merged@, t) == at_tick(all + more@, t) by {
                        lemma_at_tick_concat(all, more@, t);
                    }
                    all = all + more@;
                }
                events = merged;
            },
        }
        unit_names.push(name);
        k = k + 1;
    }
    Ok(Output { events, unit_names, ticks_per_beat, tempo: reference, used_programs: programs })
}

/// A track whose unit name would not fit the target's name field fails the
/// whole translation: no event of any unit is handed out.
pub proof fn lemma_long_name_fails(header: Header, tracks: Seq<Seq<MidiEvent>>, base_key: u8, k: int)
    requires
        0 <= k < tracks.len(),
        unit_name_of(k as nat).len() >= NAME_FIELD_BYTES,
    ensures
        translation_of(header, tracks, base_key) is Err,
{
    let reference = reference_tempo_of(tracks);
    if run_tracks(tracks, k, reference, base_key) is Err {
        lemma_run_tracks_error(tracks, k, k + 1, reference, base_key);
    }
    assert(run_tracks(tracks, k + 1, reference, base_key) is Err);
    lemma_run_tracks_error(tracks, k + 1, tracks.len() as int, reference, base_key);
}

/// The programs of the program changes among the first `n` events of a track.
pub open spec fn programs_in_track(track: Seq<MidiEvent>, n: int) -> Seq<u8>
    decreases n,
{
    if n <= 0 {
        Seq::empty()
    } else {
        let before = programs_in_track(track, n - 1);
        match track[n - 1].kind {
            EventKind::ProgramChange(p) => before.push(p),
            _ => before,
        }
    }
}

/// The programs of the program changes of the first `n` tracks, track after
/// track.
pub open spec fn programs_in_tracks(tracks: Seq<Seq<MidiEvent>>, n: int) -> Seq<u8>
    decreases n,
{
    if n <= 0 {
        Seq::empty()
    } else {
        programs_in_tracks(tracks, n - 1) + programs_in_track(tracks[n - 1], tracks[n - 1].len() as int)
    }
}

/// `programs` with each program of `s` added in turn where it is new.
pub open spec fn with_new(programs: Seq<u8>, s: Seq<u8>) -> Seq<u8>
    decreases s.len(),
{
    if s.len() == 0 {
        programs
    } else {
        let before = with_new(programs, s.drop_last());
        if before.contains(s.last()) { before } else { before.push(s.last()) }
    }
}

/// The distinct programs of `s`, each where it first occurs.
pub open spec fn first_occurrences(s: Seq<u8>) -> Seq<u8> {
    with_new(Seq::empty(), s)
}

proof fn lemma_programs_after(programs: Seq<u8>, p: u8)
    ensures
        programs_after(programs, p) == if programs.contains(p) { programs } else { programs.push(p) },
{
    lemma_slot_range(programs, p, 0);
    if program_slot(programs, p, 0) < programs.len() {
        assert(programs.contains(p));
    }
}

proof fn lemma_with_new_concat(programs: Seq<u8>, a: Seq<u8>, b: Seq<u8>)
    ensures
        with_new(with_new(programs, a), b) == with_new(programs, a + b),
    decreases b.len(),
{
    if b.len() == 0 {
        assert(a + b == a);
    } else {
        lemma_with_new_concat(programs, a, b.drop_last());
        assert((a + b).drop_last() == a + b.drop_last());
    }
}

proof fn lemma_run_track_ok_prefix(
    track: Seq<MidiEvent>,
    n: int,
    m: int,
    unit: u8,
    reference: u32,
    base_key: u8,
    programs: Seq<u8>,
)
    requires
        0 <= n <= m,
        run_track(track, m, unit, reference, base_key, programs) is Ok,
    ensures
        run_track(track, n, unit, reference, base_key, programs) is Ok,
{
    if run_track(track, n, unit, reference, base_key, programs) is Err {
        lemma_run_track_error(track, n, m, unit, reference, base_key, programs);
    }
}

proof fn lemma_run_track_programs(
    track: Seq<MidiEvent>,
    n: int,
    unit: u8,
    reference: u32,
    base_key: u8,
    programs: Seq<u8>,
)
    requires
        0 <= n,
        run_track(track, n, unit, reference, base_key, programs) is Ok,
    ensures
        run_track(track, n, unit, reference, base_key, programs)->Ok_0.1 == with_new(programs, programs_in_track(track, n)),
    decreases n,
{
    if n > 0 {
        lemma_run_track_ok_prefix(track, n - 1, n, unit, reference, base_key, programs);
        lemma_run_track_programs(track, n - 1, unit, reference, base_key, programs);
        let before = programs_in_track(track, n - 1);
        let ps = run_track(track, n - 1, unit, reference, base_key, programs)->Ok_0.1;
        match track[n - 1].kind {
            EventKind::ProgramChange(p) => {
                lemma_programs_after(ps, p);
                assert(before.push(p).drop_last() == before);
            },
            _ => {},
        }
    }
}

proof fn lemma_run_tracks_programs(tracks: Seq<Seq<MidiEvent>>, n: int, reference: u32, base_key: u8)
    requires
        0 <= n,
        run_tracks(tracks, n, reference, base_key) is Ok,
    ensures
        run_tracks(tracks, n, reference, base_key)->Ok_0.0 == first_occurrences(programs_in_tracks(tracks, n)),
    decreases n,
{
    if n > 0 {
        if run_tracks(tracks, n - 1, reference, base_key) is Err {
            lemma_run_tracks_error(tracks, n - 1, n, reference, base_key);
        }
        lemma_run_tracks_programs(tracks, n - 1, reference, base_key);
        let ps = run_tracks(tracks, n - 1, reference, base_key)->Ok_0.0;
        let t = tracks[n - 1];
        lemma_run_track_programs(t, t.len() as int, (n - 1) as u8, reference, base_key, ps);
        lemma_with_new_concat(Seq::empty(), programs_in_tracks(tracks, n - 1), programs_in_track(t, t.len() as int));
    }
}

/// Voice slots go to programs in the order of their first program change,
/// track after track: the programs of a translated song, in slot order, are
/// the distinct programs of all its program changes, each where it first
/// occurs.
pub proof fn lemma_programs_in_first_occurrence_order(header: Header, tracks: Seq<Seq<MidiEvent>>, base_key: u8)
    ensures
        translation_of(header, tracks, base_key) is Ok ==> translation_of(header, tracks, base_key)->Ok_0.2
            == first_occurrences(programs_in_tracks(tracks, tracks.len() as int)),
{
    if translation_of(header, tracks, base_key) is Ok {
        lemma_run_tracks_programs(tracks, tracks.len() as int, reference_tempo_of(tracks), base_key);
    }
}

proof fn lemma_last_key_kept(
    track: Seq<MidiEvent>,
    unit: u8,
    reference: u32,
    base_key: u8,
    programs: Seq<u8>,
    j: int,
    x: int,
)
    requires
        0 <= j < x <= track.len(),
        track[j].kind is NoteOn,
        forall|y: int| j < y < x ==> !((#[trigger] track[y]).kind is NoteOn),
        run_track(track, x, unit, reference, base_key, programs) is Ok,
    ensures
        run_track(track, x, unit, reference, base_key, programs)->Ok_0.0.last_key == Some(track[j].kind->NoteOn_0),
    decreases x - j,
{
    lemma_run_track_ok_prefix(track, x - 1, x, unit, reference, base_key, programs);
    if x > j + 1 {
        lemma_last_key_kept(track, unit, reference, base_key, programs, j, x - 1);
    }
}

/// A pitch bend that follows a note-on, with no other note-on between them,
/// restates that note-on's key at the bend's tick, bent by the new bend: the
/// events that the bend adds are exactly those of the key under that bend.
pub proof fn lemma_bend_restates_last_key(
    track: Seq<MidiEvent>,
    unit: u8,
    reference: u32,
    base_key: u8,
    programs: Seq<u8>,
    j: int,
    i: int,
)
    requires
        0 <= j < i < track.len(),
        track[j].kind is NoteOn,
        track[i].kind is PitchBend,
        forall|y: int| j < y < i ==> !((#[trigger] track[y]).kind is NoteOn),
        run_track(track, i + 1, unit, reference, base_key, programs) is Ok,
    ensures
        run_track(track, i + 1, unit, reference, base_key, programs)->Ok_0.2 == run_track(
            track,
            i,
            unit,
            reference,
            base_key,
            programs,
        )->Ok_0.2 + key_events(
            unit,
            run_track(track, i + 1, unit, reference, base_key, programs)->Ok_0.0.clock,
            track[j].kind->NoteOn_0,
            base_key,
            track[i].kind->PitchBend_0,
        ),
{
    lemma_run_track_ok_prefix(track, i, i + 1, unit, reference, base_key, programs);
    lemma_last_key_kept(track, unit, reference, base_key, programs, j, i);
}

/// Whether `a` is a prefix of `b`.
pub open spec fn prefix_of(a: Seq<u8>, b: Seq<u8>) -> bool {
    &&& a.len() <= b.len()
    &&& forall|x: int| 0 <= x < a.len() ==> #[trigger] b[x] == a[x]
}

proof fn lemma_with_new_extends(programs: Seq<u8>, s: Seq<u8>)
    ensures
        prefix_of(programs, with_new(programs, s)),
    decreases s.len(),
{
    if s.len() > 0 {
        lemma_with_new_extends(programs, s.drop_last());
    }
}

proof fn lemma_track_programs_grow(track: Seq<MidiEvent>, programs: Seq<u8>, m: int, n: int)
    requires
        0 <= m <= n,
    ensures
        prefix_of(with_new(programs, programs_in_track(track, m)), with_new(programs, programs_in_track(track, n))),
    decreases n - m,
{
    if m < n {
        lemma_track_programs_grow(track, programs, m, n - 1);
        let before = programs_in_track(track, n - 1);
        match track[n - 1].kind {
            EventKind::ProgramChange(p) => {
                assert(before.push(p).drop_last() == before);
            },
            _ => {},
        }
    }
}

proof fn lemma_tracks_programs_grow(tracks: Seq<Seq<MidiEvent>>, m: int, n: int)
    requires
        0 <= m <= n,
    ensures
        prefix_of(first_occurrences(programs_in_tracks(tracks, m)), first_occurrences(programs_in_tracks(tracks, n))),
    decreases n - m,
{
    if m < n {
        lemma_tracks_programs_grow(tracks, m, n - 1);
        let a = programs_in_tracks(tracks, n - 1);
        let b = programs_in_track(tracks[n - 1], tracks[n - 1].len() as int);
        lemma_with_new_concat(Seq::empty(), a, b);
        lemma_with_new_extends(with_new(Seq::empty(), a), b);
    }
}

/// The voice slot that a program change is given names that program in the
/// programs of the translated song: the list of programs is the inverse of
/// the slots handed out.
pub proof fn lemma_slot_names_program(header: Header, tracks: Seq<Seq<MidiEvent>>, base_key: u8, k: int, i: int)
    requires
        translation_of(header, tracks, base_key) is Ok,
        0 <= k < tracks.len(),
        0 <= i < tracks[k].len(),
        tracks[k][i].kind is ProgramChange,
    ensures
        ({
            let reference = reference_tempo_of(tracks);
            let before = run_tracks(tracks, k, reference, base_key)->Ok_0.0;
            let emitted = run_track(tracks[k], i + 1, k as u8, reference, base_key, before)->Ok_0.2;
            &&& emitted.len() > 0
            &&& emitted.last().payload is SetVoice
            &&& emitted.last().payload->SetVoice_0 < translation_of(header, tracks, base_key)->Ok_0.2.len()
            &&& translation_of(header, tracks, base_key)->Ok_0.2[emitted.last().payload->SetVoice_0 as int]
                == tracks[k][i].kind->ProgramChange_0
        }),
{
    let reference = reference_tempo_of(tracks);
    let n = tracks.len() as int;
    let t = tracks[k];
    let p = t[i].kind->ProgramChange_0;
    lemma_run_tracks_programs(tracks, n, reference, base_key);
    if run_tracks(tracks, k, reference, base_key) is Err {
        lemma_run_tracks_error(tracks, k, n, reference, base_key);
    }
    if run_tracks(tracks, k + 1, reference, base_key) is Err {
        lemma_run_tracks_error(tracks, k + 1, n, reference, base_key);
    }
    let before = run_tracks(tracks, k, reference, base_key)->Ok_0.0;
    lemma_run_tracks_programs(tracks, k, reference, base_key);
    assert(run_track(t, t.len() as int, k as u8, reference, base_key, before) is Ok);
    lemma_run_track_ok_prefix(t, i + 1, t.len() as int, k as u8, reference, base_key, before);
    lemma_run_track_ok_prefix(t, i, t.len() as int, k as u8, reference, base_key, before);
    let ps = run_track(t, i, k as u8, reference, base_key, before)->Ok_0.1;
    let slot = program_slot(ps, p, 0);
    lemma_slot_range(ps, p, 0);
    assert(programs_after(ps, p)[slot] == p);
    // The programs after this event, after this track, and after all tracks,
    // each extend the one before.
    lemma_run_track_programs(t, i + 1, k as u8, reference, base_key, before);
    lemma_run_track_programs(t, t.len() as int, k as u8, reference, base_key, before);
    lemma_track_programs_grow(t, before, i + 1, t.len() as int);
    lemma_run_tracks_programs(tracks, k + 1, reference, base_key);
    lemma_tracks_programs_grow(tracks, k + 1, n);
    let after_event = run_track(t, i + 1, k as u8, reference, base_key, before)->Ok_0.1;
    let after_track = run_track(t, t.len() as int, k as u8, reference, base_key, before)->Ok_0.1;
    let all = translation_of(header, tracks, base_key)->Ok_0.2;
    assert(after_event == programs_after(ps, p));
    assert(prefix_of(after_event, after_track));
    assert(run_tracks(tracks, k + 1, reference, base_key)->Ok_0.0 == after_track);
    assert(all == first_occurrences(programs_in_tracks(tracks, n)));
    assert(prefix_of(after_track, all));
    assert(all[slot] == p);
    lemma_first_occurrences_distinct(programs_in_tracks(tracks, n));
    lemma_distinct_len(all);
    let emitted = run_track(t, i + 1, k as u8, reference, base_key, before)->Ok_0.2;
    assert(emitted == run_track(t, i, k as u8, reference, base_key, before)->Ok_0.2 + seq![
        Event { tick: run_track(t, i + 1, k as u8, reference, base_key, before)->Ok_0.0.clock, unit: k as u8, payload: Payload::SetVoice(slot as u32) },
    ]);
}

proof fn lemma_with_new_distinct(programs: Seq<u8>, s: Seq<u8>)
    requires
        programs.no_duplicates(),
    ensures
        with_new(programs, s).no_duplicates(),
    decreases s.len(),
{
    if s.len() > 0 {
        lemma_with_new_distinct(programs, s.drop_last());
    }
}

proof fn lemma_first_occurrences_distinct(s: Seq<u8>)
    ensures
        first_occurrences(s).no_duplicates(),
{
    lemma_with_new_distinct(Seq::empty(), s);
}

proof fn lemma_span_within(track: Seq<MidiEvent>, n: int, m: int)
    requires
        0 <= n <= m,
    ensures
        delta_span(track, 0, n) <= delta_span(track, 0, m),
    decreases m - n,
{
    if n < m {
        lemma_span_within(track, n, m - 1);
    }
}

/// Whether every note-on of the track is ended later in it.
pub open spec fn notes_resolved(track: Seq<MidiEvent>) -> bool {
    forall|i: int| 0 <= i < track.len() && (#[trigger] track[i]).kind is NoteOn ==> note_duration_of(track, i) is Some
}

proof fn lemma_run_track_no_tempo(
    track: Seq<MidiEvent>,
    n: int,
    unit: u8,
    reference: u32,
    base_key: u8,
    programs: Seq<u8>,
)
    requires
        0 <= n <= track.len(),
        no_tempo_in(track),
        notes_resolved(track),
        delta_span(track, 0, track.len() as int) <= u32::MAX,
    ensures
        run_track(track, n, unit, reference, base_key, programs) is Ok,
        run_track(track, n, unit, reference, base_key, programs)->Ok_0.0.clock == delta_span(track, 0, n),
        run_track(track, n, unit, reference, base_key, programs)->Ok_0.0.tempo == 0,
    decreases n,
{
    if n > 0 {
        lemma_run_track_no_tempo(track, n - 1, unit, reference, base_key, programs);
        lemma_span_within(track, n, track.len() as int);
        assert(!(track[n - 1].kind is Tempo));
    }
}

proof fn lemma_decimal_short(n: nat)
    requires
        n < 100,
    ensures
        decimal_of(n).len() <= 2,
{
    if n >= 10 {
        assert(n / 10 < 10);
        assert(decimal_of((n / 10) as nat).len() == 1);
        assert(decimal_of(n).len() == decimal_of((n / 10) as nat).len() + 1);
    } else {
        assert(decimal_of(n).len() == 1);
    }
}

proof fn lemma_run_tracks_no_tempo(tracks: Seq<Seq<MidiEvent>>, n: int, reference: u32, base_key: u8)
    requires
        0 <= n <= tracks.len() <= MAX_UNITS,
        forall|k: int| 0 <= k < tracks.len() ==> no_tempo_in(#[trigger] tracks[k]),
        forall|k: int| 0 <= k < tracks.len() ==> notes_resolved(#[trigger] tracks[k]),
        forall|k: int| 0 <= k < tracks.len() ==> delta_span(#[trigger] tracks[k], 0, tracks[k].len() as int) <= u32::MAX,
    ensures
        run_tracks(tracks, n, reference, base_key) is Ok,
    decreases n,
{
    if n > 0 {
        lemma_run_tracks_no_tempo(tracks, n - 1, reference, base_key);
        lemma_decimal_short((n - 1) as nat);
        let t = tracks[n - 1];
        let ps = run_tracks(tracks, n - 1, reference, base_key)->Ok_0.0;
        lemma_run_track_no_tempo(t, t.len() as int, (n - 1) as u8, reference, base_key, ps);
    }
}

/// A song of parallel tracks with metrical timing and no tempo event
/// translates at the default tempo of 120 beats per minute, where it has no
/// more tracks than the target holds, every note-on is ended later in its
/// track, and the delta times of each track add up to a tick that the target
/// can hold.
pub proof fn lemma_no_tempo_translates(header: Header, tracks: Seq<Seq<MidiEvent>>, base_key: u8)
    requires
        header.format == Format::Parallel,
        header.timing is Metrical,
        tracks.len() <= MAX_UNITS,
        forall|k: int| 0 <= k < tracks.len() ==> no_tempo_in(#[trigger] tracks[k]),
        forall|k: int| 0 <= k < tracks.len() ==> notes_resolved(#[trigger] tracks[k]),
        forall|k: int| 0 <= k < tracks.len() ==> delta_span(#[trigger] tracks[k], 0, tracks[k].len() as int) <= u32::MAX,
    ensures
        translation_of(header, tracks, base_key) is Ok,
        translation_of(header, tracks, base_key)->Ok_0.1 == DEFAULT_TEMPO,
        60_000_000int / (translation_of(header, tracks, base_key)->Ok_0.1 as int) == 120,
{
    lemma_no_tempo_gives_default(tracks);
    lemma_run_tracks_no_tempo(tracks, tracks.len() as int, reference_tempo_of(tracks), base_key);
}

/// A note-on adds, at the tick that the clock reaches on it (never earlier
/// than the event before), the key under the current bend, then its
/// velocity, then an `On` with its resolved duration.
pub proof fn lemma_note_on_events(
    track: Seq<MidiEvent>,
    unit: u8,
    reference: u32,
    base_key: u8,
    programs: Seq<u8>,
    i: int,
)
    requires
        0 <= i < track.len(),
        track[i].kind is NoteOn,
        run_track(track, i + 1, unit, reference, base_key, programs) is Ok,
    ensures
        ({
            let before = run_track(track, i, unit, reference, base_key, programs)->Ok_0;
            let after = run_track(track, i + 1, unit, reference, base_key, programs)->Ok_0;
            let c = after.0.clock;
            &&& before.0.clock <= c
            &&& note_duration_of(track, i) is Some
            &&& after.2 == before.2 + key_events(unit, c, track[i].kind->NoteOn_0, base_key, before.0.bend) + seq![
                Event { tick: c, unit: unit, payload: Payload::Velocity(track[i].kind->NoteOn_1 as i16) },
                Event { tick: c, unit: unit, payload: Payload::On(note_duration_of(track, i)->Some_0) },
            ]
        }),
{
    lemma_run_track_ok_prefix(track, i, i + 1, unit, reference, base_key, programs);
    let before = run_track(track, i, unit, reference, base_key, programs)->Ok_0;
    let more = step(track, i, unit, reference, base_key, before.0, before.1)->Ok_0.2;
    assert(before.2 + more == before.2 + key_events(
        unit,
        run_track(track, i + 1, unit, reference, base_key, programs)->Ok_0.0.clock,
        track[i].kind->NoteOn_0,
        base_key,
        before.0.bend,
    ) + seq![
        Event {
            tick: run_track(track, i + 1, unit, reference, base_key, programs)->Ok_0.0.clock,
            unit: unit,
            payload: Payload::Velocity(track[i].kind->NoteOn_1 as i16),
        },
        Event {
            tick: run_track(track, i + 1, unit, reference, base_key, programs)->Ok_0.0.clock,
            unit: unit,
            payload: Payload::On(note_duration_of(track, i)->Some_0),
        },
    ]);
}

} // verus!
