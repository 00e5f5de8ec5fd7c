//! The reference tempo: one tempo for the whole song.
use vstd::prelude::*;
use crate::midi::{EventKind, MidiEvent};

verus! {

/// The tempo used when no track declares one: 500 000 microseconds per beat,
/// that is 120 beats per minute.
pub const DEFAULT_TEMPO: u32 = 500_000;

/// The faster of two tempo values in microseconds per beat (the smaller
/// one), where 0 stands for no tempo at all.
pub open spec fn faster(a: u32, b: u32) -> u32 {
    if a == 0 {
        b
    } else if b == 0 {
        a
    } else if a < b {
        a
    } else {
        b
    }
}

/// The fastest tempo (the smallest non-zero microseconds-per-beat value)
/// among the first `n` events of a track; 0 where there is none.
pub open spec fn track_fastest_tempo(track: Seq<MidiEvent>, n: int) -> u32
    decreases n,
{
    if n <= 0 {
        0
    } else {
        let prev = track_fastest_tempo(track, n - 1);
        match track[n - 1].kind {
            EventKind::Tempo(t) => faster(prev, t),
            _ => prev,
        }
    }
}

/// The fastest tempo among the first `n` tracks; 0 where there is none.
pub open spec fn fastest_tempo(tracks: Seq<Seq<MidiEvent>>, n: int) -> u32
    decreases n,
{
    if n <= 0 {
        0
    } else {
        faster(fastest_tempo(tracks, n - 1), track_fastest_tempo(tracks[n - 1], tracks[n - 1].len() as int))
    }
}

/// The reference tempo of a song: its fastest declared tempo, that is the
/// smallest non-zero microseconds-per-beat value over all tracks, or
/// `DEFAULT_TEMPO` where no track declares a non-zero one.
pub open spec fn reference_tempo_of(tracks: Seq<Seq<MidiEvent>>) -> u32 {
    let m = fastest_tempo(tracks, tracks.len() as int);
    if m == 0 { DEFAULT_TEMPO } else { m }
}

fn faster_exec(a: u32, b: u32) -> (r: u32)
    ensures
        r == faster(a, b),
{
    if a == 0 {
        b
    } else if b == 0 {
        a
    } else if a < b {
        a
    } else {
        b
    }
}

/// Scans every tempo event of every track for the reference tempo.
pub fn reference_tempo(tracks: &Vec<Vec<MidiEvent>>) -> (r: u32)
    ensures
        r == reference_tempo_of(crate::midi::tracks_view(tracks@)),
        r > 0,
{
    let ghost ts = crate::midi::tracks_view(tracks@);
    let mut fastest: u32 = 0;
    let mut k: usize = 0;
    while k < tracks.len()
        invariant
            k <= tracks@.len(),
            ts == crate::midi::tracks_view(tracks@),
            fastest == fastest_tempo(ts, k as int),
        decreases tracks@.len() - k,
    {
        let track = &tracks[k];
        assert(ts[k as int] == track@);
        let mut m: u32 = 0;
        let mut i: usize = 0;
        while i < track.len()
            invariant
                i <= track@.len(),
                m == track_fastest_tempo(track@, i as int),
            decreases track@.len() - i,
        {
            match track[i].kind {
                EventKind::Tempo(t) => {
                    m = faster_exec(m, t);
                },
                _ => {},
            }
            i = i + 1;
        }
        fastest = faster_exec(fastest, m);
        k = k + 1;
    }
    if fastest == 0 {
        DEFAULT_TEMPO
    } else {
        fastest
    }
}

/// Whether no event of the track declares a tempo.
pub open spec fn no_tempo_in(track: Seq<MidiEvent>) -> bool {
    forall|i: int| 0 <= i < track.len() ==> !((#[trigger] track[i]).kind is Tempo)
}

proof fn lemma_track_without_tempo(track: Seq<MidiEvent>, n: int)
    requires
        no_tempo_in(track),
        n <= track.len(),
    ensures
        track_fastest_tempo(track, n) == 0,
    decreases n,
{
    if n > 0 {
        lemma_track_without_tempo(track, n - 1);
    }
}

proof fn lemma_tracks_without_tempo(tracks: Seq<Seq<MidiEvent>>, n: int)
    requires
        forall|k: int| 0 <= k < tracks.len() ==> no_tempo_in(#[trigger] tracks[k]),
        n <= tracks.len(),
    ensures
        fastest_tempo(tracks, n) == 0,
    decreases n,
{
    if n > 0 {
        lemma_tracks_without_tempo(tracks, n - 1);
        lemma_track_without_tempo(tracks[n - 1], tracks[n - 1].len() as int);
    }
}

/// A song in which no track declares a tempo has the default reference
/// tempo: 500 000 microseconds per beat, 120 beats per minute.
pub proof fn lemma_no_tempo_gives_default(tracks: Seq<Seq<MidiEvent>>)
    requires
        forall|k: int| 0 <= k < tracks.len() ==> no_tempo_in(#[trigger] tracks[k]),
    ensures
        reference_tempo_of(tracks) == DEFAULT_TEMPO,
        60_000_000int / (reference_tempo_of(tracks) as int) == 120,
{
    lemma_tracks_without_tempo(tracks, tracks.len() as int);
}

} // verus!
