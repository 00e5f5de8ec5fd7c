//! Note durations: a bounded forward scan from a note-on to the event that
//! ends it, in the same track.
use vstd::prelude::*;
use crate::midi::{EventKind, MidiEvent};

verus! {

/// A resolved duration above this many ticks is taken as an outlier.
pub const LONG_NOTE_TICKS: u32 = 80_000;

/// The duration that an outlier is shortened to.
pub const SHORTENED_NOTE_TICKS: u32 = 100;

/// Whether an event ends a note of `key`: a note-off of that key, or a
/// note-on of that key with velocity zero.
pub open spec fn ends_note(e: MidiEvent, key: u8) -> bool {
    match e.kind {
        EventKind::NoteOff(k) => k == key,
        EventKind::NoteOn(k, v) => k == key && v == 0,
        _ => false,
    }
}

/// The index of the first event at or after `j` that ends a note of `key`.
pub open spec fn note_end_from(track: Seq<MidiEvent>, key: u8, j: int) -> Option<int>
    decreases track.len() - j,
{
    if j < 0 || j >= track.len() {
        None
    } else if ends_note(track[j], key) {
        Some(j)
    } else {
        note_end_from(track, key, j + 1)
    }
}

/// The sum of the delta times of the events with index in `a..b`.
pub open spec fn delta_span(track: Seq<MidiEvent>, a: int, b: int) -> int
    decreases b - a,
{
    if b <= a {
        0
    } else {
        delta_span(track, a, b - 1) + track[b - 1].delta
    }
}

/// The key of the note-on at `i` (0 for any other event).
pub open spec fn key_at(track: Seq<MidiEvent>, i: int) -> u8 {
    match track[i].kind {
        EventKind::NoteOn(k, _) => k,
        _ => 0,
    }
}

/// The number of ticks from the note-on at `i` to the first event, from `i`
/// on, that ends a note of its key; `None` where no such event follows.
/// A note-on of velocity zero ends itself, with a duration of zero.
pub open spec fn resolved_duration(track: Seq<MidiEvent>, i: int) -> Option<int> {
    match note_end_from(track, key_at(track, i), i) {
        Some(j) => Some(delta_span(track, i + 1, j + 1)),
        None => None,
    }
}

/// The duration given to the note-on at `i`: the resolved one, with an
/// outlier above `LONG_NOTE_TICKS` shortened to `SHORTENED_NOTE_TICKS`.
pub open spec fn note_duration_of(track: Seq<MidiEvent>, i: int) -> Option<u32> {
    match resolved_duration(track, i) {
        Some(d) => Some(if d > LONG_NOTE_TICKS { SHORTENED_NOTE_TICKS } else { d as u32 }),
        None => None,
    }
}

proof fn lemma_span_nonnegative(track: Seq<MidiEvent>, a: int, b: int)
    requires
        a <= b,
    ensures
        delta_span(track, a, b) >= 0,
    decreases b - a,
{
    if a < b {
        lemma_span_nonnegative(track, a, b - 1);
    }
}

/// Resolves the duration of the note-on at index `i` of `track`.
pub fn note_duration(track: &Vec<MidiEvent>, i: usize) -> (r: Option<u32>)
    requires
        i < track@.len(),
        track@[i as int].kind is NoteOn,
    ensures
        r == note_duration_of(track@, i as int),
{
    let key = match track[i].kind {
        EventKind::NoteOn(k, _) => k,
        _ => 0,
    };
    // The sum so far, held at `LONG_NOTE_TICKS + 1` once it passes that.
    let mut acc: u32 = 0;
    let mut j: usize = i;
    while j < track.len()
        invariant
            i <= j <= track@.len(),
            key == key_at(track@, i as int),
            note_end_from(track@, key, i as int) == note_end_from(track@, key, j as int),
            j == i ==> acc == 0,
            j > i ==> (if delta_span(track@, i + 1, j as int) > LONG_NOTE_TICKS {
                acc == LONG_NOTE_TICKS + 1
            } else {
                acc == delta_span(track@, i + 1, j as int)
            }),
        decreases track@.len() - j,
    {
        let e = track[j];
        if j > i {
            proof {
                lemma_span_nonnegative(track@, i + 1, j as int);
            }
            if acc as u64 + e.delta as u64 > LONG_NOTE_TICKS as u64 {
                acc = LONG_NOTE_TICKS + 1;
            } else {
                acc = acc + e.delta;
            }
        }
        let ends = match e.kind {
            EventKind::NoteOff(k) => k == key,
            EventKind::NoteOn(k, v) => k == key && v == 0,
            _ => false,
        };
        if ends {
            if acc > LONG_NOTE_TICKS {
                return Some(SHORTENED_NOTE_TICKS);
            } else {
                return Some(acc);
            }
        }
        j = j + 1;
    }
    None
}

/// Replacing the note-off that ends a note by a note-on of the same key with
/// velocity zero, at the same delta time, leaves every resolved duration of
/// the track as it was.
pub proof fn lemma_zero_velocity_ends_like_off(
    track: Seq<MidiEvent>,
    i: int,
    j: int,
    key: u8,
)
    requires
        0 <= i < track.len(),
        0 <= j < track.len(),
        i != j,
        track[i].kind is NoteOn,
        track[j].kind == EventKind::NoteOff(key),
    ensures
        resolved_duration(
            track.update(j, MidiEvent { delta: track[j].delta, kind: EventKind::NoteOn(key, 0) }),
            i,
        ) == resolved_duration(track, i),
        note_duration_of(
            track.update(j, MidiEvent { delta: track[j].delta, kind: EventKind::NoteOn(key, 0) }),
            i,
        ) == note_duration_of(track, i),
{
    let t2 = track.update(j, MidiEvent { delta: track[j].delta, kind: EventKind::NoteOn(key, 0) });
    assert(key_at(t2, i) == key_at(track, i));
    lemma_end_same(track, t2, key_at(track, i), i);
    lemma_end_in_range(track, key_at(track, i), i);
    lemma_span_same(track, t2, i + 1, track.len() as int);
}

proof fn lemma_end_in_range(track: Seq<MidiEvent>, key: u8, j: int)
    ensures
        note_end_from(track, key, j) matches Some(x) ==> j <= x < track.len(),
    decreases track.len() - j,
{
    if 0 <= j < track.len() && !ends_note(track[j], key) {
        lemma_end_in_range(track, key, j + 1);
    }
}

proof fn lemma_end_same(t1: Seq<MidiEvent>, t2: Seq<MidiEvent>, key: u8, j: int)
    requires
        t1.len() == t2.len(),
        forall|x: int| 0 <= x < t1.len() ==> (ends_note(#[trigger] t1[x], key) <==> ends_note(t2[x], key)),
    ensures
        note_end_from(t1, key, j) == note_end_from(t2, key, j),
    decreases t1.len() - j,
{
    if 0 <= j < t1.len() {
        lemma_end_same(t1, t2, key, j + 1);
    }
}

proof fn lemma_span_same(t1: Seq<MidiEvent>, t2: Seq<MidiEvent>, a: int, b: int)
    requires
        t1.len() == t2.len(),
        forall|x: int| 0 <= x < t1.len() ==> (#[trigger] t1[x]).delta == t2[x].delta,
    ensures
        forall|c: int| a <= c <= b && c <= t1.len() && a >= 0 ==> delta_span(t1, a, c) == delta_span(t2, a, c),
{
    assert forall|c: int| a <= c <= b && c <= t1.len() && a >= 0 implies delta_span(t1, a, c) == delta_span(t2, a, c) by {
        lemma_span_same_at(t1, t2, a, c);
    }
}

proof fn lemma_span_same_at(t1: Seq<MidiEvent>, t2: Seq<MidiEvent>, a: int, c: int)
    requires
        t1.len() == t2.len(),
        forall|x: int| 0 <= x < t1.len() ==> (#[trigger] t1[x]).delta == t2[x].delta,
        0 <= a,
        c <= t1.len(),
    ensures
        delta_span(t1, a, c) == delta_span(t2, a, c),
    decreases c - a,
{
    if a < c {
        lemma_span_same_at(t1, t2, a, c - 1);
    }
}

} // verus!
